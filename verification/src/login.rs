//! Signing in: the request that logs a user in, the session cookie in the
//! server's reply, and the lines of the file that lists the accounts.
use vstd::prelude::*;
use vstd::string::StringExecFns;
use vstd::string::StringSliceAdditionalSpecFns;
use crate::decimal::{decimal, push_unsigned};

verus! {

/// Whether `pat` occurs in `b` at index `p`.
pub open spec fn occurs_at(b: Seq<u8>, pat: Seq<u8>, p: int) -> bool {
    0 <= p && p + pat.len() <= b.len() && b.subrange(p, p + pat.len()) == pat
}

/// Whether `p` is the first index at or after `from` where `pat` occurs.
pub open spec fn first_at(b: Seq<u8>, pat: Seq<u8>, from: int, p: int) -> bool {
    &&& from <= p
    &&& occurs_at(b, pat, p)
    &&& forall|q: int| from <= q < p ==> !occurs_at(b, pat, q)
}

/// Whether `pat` occurs anywhere at or after `from`.
pub open spec fn occurs_from(b: Seq<u8>, pat: Seq<u8>, from: int) -> bool {
    exists|p: int| from <= p && occurs_at(b, pat, p)
}

/// Whether index `i` of UTF-8 text `b` starts a character (or is its end).
pub open spec fn char_boundary(b: Seq<u8>, i: int) -> bool {
    i == b.len() || (0 <= i < b.len() && (b[i] < 0x80 || b[i] >= 0xc0))
}

/// The name of the cookie header, in bytes.
pub open spec fn set_cookie_bytes() -> Seq<u8> {
    seq![0x73u8, 0x65, 0x74, 0x2d, 0x63, 0x6f, 0x6f, 0x6b, 0x69, 0x65]
}

/// Whether the reply `b` carries a session cookie that the client can take:
/// after the first `set-cookie` come two more bytes, then the cookie, up to
/// a `;`; the line must end with a newline.
pub open spec fn cookie_found(b: Seq<u8>) -> bool {
    &&& occurs_from(b, set_cookie_bytes(), 0)
    &&& {
        let p = choose|p: int| first_at(b, set_cookie_bytes(), 0, p);
        let n = p + 12;
        &&& n <= b.len()
        &&& char_boundary(b, n)
        &&& occurs_from(b, seq![10u8], n)
        &&& occurs_from(b, seq![59u8], n)
    }
}

/// The first index at or after `from` where `pat` occurs.
fn find_from(b: &[u8], pat: &[u8], from: usize) -> (r: Option<usize>)
    requires
        pat@.len() > 0,
    ensures
        r matches Some(p) ==> first_at(b@, pat@, from as int, p as int),
        r is None ==> !occurs_from(b@, pat@, from as int),
{
    let n = b.len();
    let m = pat.len();
    if m > n {
        return None;
    }
    let mut p = from;
    while p <= n - m
        invariant
            n == b@.len(),
            m == pat@.len(),
            m <= n,
            from <= p,
            forall|q: int| from <= q < p ==> !occurs_at(b@, pat@, q),
        decreases n - p,
    {
        let mut k: usize = 0;
        let mut same = true;
        while k < m
            invariant
                n == b@.len(),
                m == pat@.len(),
                p + m <= n,
                k <= m,
                same == (forall|j: int| 0 <= j < k ==> b@[p + j] == pat@[j]),
            decreases m - k,
        {
            if b[p + k] != pat[k] {
                same = false;
            }
            k = k + 1;
        }
        if same {
            assert(b@.subrange(p as int, p + m) =~= pat@);
            return Some(p);
        }
        proof {
            let j = choose|j: int| 0 <= j < m && b@[p + j] != pat@[j];
            assert(b@.subrange(p as int, p + m)[j] != pat@[j]);
        }
        p = p + 1;
    }
    None
}

/// Where the session cookie lies in the server's reply `b`: the bytes from
/// two after the end of the first `set-cookie` up to the first `;` after
/// them. `None` when `cookie_found` does not hold.
pub fn cookie_range(b: &[u8]) -> (r: Option<(usize, usize)>)
    ensures
        r is Some <==> cookie_found(b@),
        r matches Some((s, e)) ==> {
            &&& first_at(b@, set_cookie_bytes(), 0, s - 12)
            &&& first_at(b@, seq![59u8], s as int, e as int)
        },
{
    let key: [u8; 10] = [0x73, 0x65, 0x74, 0x2d, 0x63, 0x6f, 0x6f, 0x6b, 0x69, 0x65];
    assert(key@ =~= set_cookie_bytes());
    let newline: [u8; 1] = [10];
    let semi: [u8; 1] = [59];
    assert(newline@ =~= seq![10u8]);
    assert(semi@ =~= seq![59u8]);
    let p = match find_from(b, &key, 0) {
        Some(p) => p,
        None => return None,
    };
    proof {
        let c = choose|q: int| first_at(b@, set_cookie_bytes(), 0, q);
        if c < p {
        } else if p < c {
        }
        assert(c == p);
    }
    if b.len() < 12 || p > b.len() - 12 {
        return None;
    }
    let n = p + 12;
    if !(n == b.len() || b[n] < 0x80 || b[n] >= 0xc0) {
        return None;
    }
    if find_from(b, &newline, n).is_none() {
        return None;
    }
    match find_from(b, &semi, n) {
        Some(e) => Some((n, e)),
        None => None,
    }
}

/// The login request for `user` with password `pass`: an HTTP form post
/// whose declared length is the bytes of both plus 19.
pub open spec fn login_request_text(user: Seq<char>, pass: Seq<char>, clen: nat) -> Seq<char> {
    "POST /loginAction HTTP/1.1\r\nHost: ostracodapps.com\r\nContent-Type: application/x-www-form-urlencoded\r\nContent-Length: "@
        + decimal(clen) + "\r\n\r\nusername="@ + user + "&password="@ + pass + "\r\n"@
}

/// The login request: see `login_request_text`.
pub fn login_request(user: &str, pass: &str) -> (s: String)
    requires
        user.spec_bytes().len() + pass.spec_bytes().len() + 19 <= usize::MAX,
    ensures
        s@ == login_request_text(user@, pass@, (user.spec_bytes().len() + pass.spec_bytes().len() + 19) as nat),
{
    let clen = user.len() + pass.len() + 19;
    let mut s = String::from_str(
        "POST /loginAction HTTP/1.1\r\nHost: ostracodapps.com\r\nContent-Type: application/x-www-form-urlencoded\r\nContent-Length: ",
    );
    push_unsigned(&mut s, clen as u64);
    s.append("\r\n\r\nusername=");
    s.append(user);
    s.append("&password=");
    s.append(pass);
    s.append("\r\n");
    s
}

/// The lines of `b`: the pieces between its newline bytes, in order, the
/// last running to the end (so `n` newlines give `n + 1` pieces, some
/// perhaps empty). Each piece is a start and an end index.
pub open spec fn lines_of(b: Seq<u8>, r: Seq<(usize, usize)>) -> bool {
    &&& r.len() >= 1
    &&& r[0].0 == 0
    &&& r.last().1 == b.len()
    &&& forall|k: int| 0 <= k < r.len() ==> #[trigger] r[k].0 <= r[k].1
    &&& forall|k: int| 0 <= k < r.len() - 1 ==> #[trigger] b[r[k].1 as int] == 10 && r[k + 1].0 == r[k].1 + 1
    &&& forall|k: int, i: int| #![trigger r[k], b[i]] 0 <= k < r.len() && r[k].0 <= i < r[k].1 ==> b[i] != 10
}

/// Splits `b` at its newline bytes: see `lines_of`.
pub fn split_lines(b: &[u8]) -> (r: Vec<(usize, usize)>)
    ensures
        lines_of(b@, r@),
{
    let n = b.len();
    let mut r: Vec<(usize, usize)> = Vec::new();
    let mut start: usize = 0;
    for i in 0..n
        invariant
            n == b@.len(),
            start <= i,
            r@.len() == 0 ==> start == 0,
            r@.len() > 0 ==> r@[0].0 == 0,
            r@.len() > 0 ==> start == r@.last().1 + 1 && b@[r@.last().1 as int] == 10,
            forall|k: int| 0 <= k < r@.len() ==> #[trigger] r@[k].0 <= r@[k].1,
            forall|k: int| 0 <= k < r@.len() - 1 ==> #[trigger] b@[r@[k].1 as int] == 10 && r@[k + 1].0 == r@[k].1 + 1,
            forall|k: int, j: int| #![trigger r@[k], b@[j]] 0 <= k < r@.len() && r@[k].0 <= j < r@[k].1 ==> b@[j] != 10,
            forall|j: int| start <= j < i ==> b@[j] != 10,
    {
        if b[i] == 10 {
            r.push((start, i));
            start = i + 1;
        }
    }
    let ghost before = r@;
    r.push((start, n));
    proof {
        assert forall|k: int, j: int| #![trigger r@[k], b@[j]] 0 <= k < r@.len() && r@[k].0 <= j < r@[k].1 implies b@[j] != 10 by {
            if k < before.len() {
                assert(r@[k] == before[k]);
            }
        }
        assert forall|k: int| 0 <= k < r@.len() - 1 implies #[trigger] b@[r@[k].1 as int] == 10 && r@[k + 1].0 == r@[k].1 + 1 by {
            assert(r@[k] == before[k]);
            if k + 1 < before.len() {
                assert(r@[k + 1] == before[k + 1]);
            }
        }
    }
    r
}

} // verus!
