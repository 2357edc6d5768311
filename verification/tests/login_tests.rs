use crust::login::{cookie_range, login_request, split_lines};

#[test]
fn cookie_in_reply() {
    let reply = "HTTP/1.1 302 Found\r\nset-cookie: connect.sid=abc; Path=/\r\n\r\n";
    let (s, e) = cookie_range(reply.as_bytes()).unwrap();
    assert_eq!(&reply[s..e], "connect.sid=abc");
}

#[test]
fn cookie_missing() {
    assert_eq!(cookie_range(b"HTTP/1.1 200 OK\r\n\r\n"), None);
    assert_eq!(cookie_range(b"set-cookie: abc\n"), None);
    assert_eq!(cookie_range(b"set-cookie: abc;"), None);
    assert_eq!(cookie_range(b"set-cookie:"), None);
    assert_eq!(cookie_range("set-cookie:\u{e9};\n".as_bytes()), None);
    assert_eq!(cookie_range(b"set-cookie: ;\n"), Some((12, 12)));
}

#[test]
fn request_text() {
    assert_eq!(
        login_request("ab", "xyz"),
        "POST /loginAction HTTP/1.1\r\nHost: ostracodapps.com\r\nContent-Type: application/x-www-form-urlencoded\r\nContent-Length: 24\r\n\r\nusername=ab&password=xyz\r\n"
    );
    assert!(login_request("\u{e9}", "").contains("Content-Length: 21\r\n"));
}

#[test]
fn lines() {
    assert_eq!(split_lines(b"a\nbb\n"), vec![(0, 1), (2, 4), (5, 5)]);
    assert_eq!(split_lines(b""), vec![(0, 0)]);
    assert_eq!(split_lines(b"user\npass"), vec![(0, 4), (5, 9)]);
}
