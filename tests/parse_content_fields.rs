use std::collections::HashMap;

use mail_parser::{HeaderValue, MessageStream};

type Expected = Option<(&'static str, Option<&'static str>, Option<Vec<(&'static str, &'static str)>>)>;

type Flat = Option<(String, Option<String>, Option<HashMap<String, String>>)>;

fn flatten(value: HeaderValue) -> Flat {
    match value {
        HeaderValue::ContentType(ct) => Some((ct.c_type, ct.c_subtype, ct.attributes.map(|a| a.into_iter().collect()))),
        HeaderValue::Empty => None,
    }
}

fn expected(e: Expected) -> Flat {
    e.map(|(t, s, a)| {
        (
            t.to_string(),
            s.map(|s| s.to_string()),
            a.map(|a| a.into_iter().map(|(k, v)| (k.to_string(), v.to_string())).collect()),
        )
    })
}

#[test]
fn parse_content_fields() {
    let inputs: Vec<(&str, Expected)> = vec![
        ("audio/basic\n", Some(("audio", Some("basic"), None))),
        ("application/postscript \n", Some(("application", Some("postscript"), None))),
        ("image/ jpeg\n", Some(("image", Some("jpeg"), None))),
        (" message / rfc822\n", Some(("message", Some("rfc822"), None))),
        ("inline\n", Some(("inline", None, None))),
        (" text/plain; charset =us-ascii (Plain text)\n", Some(("text", Some("plain"), Some(vec![("charset", "us-ascii")])))),
        ("text/plain; charset= \"us-ascii\"\n", Some(("text", Some("plain"), Some(vec![("charset", "us-ascii")])))),
        ("text/plain; charset =ISO-8859-1\n", Some(("text", Some("plain"), Some(vec![("charset", "ISO-8859-1")])))),
        ("text/foo; charset= bar\n", Some(("text", Some("foo"), Some(vec![("charset", "bar")])))),
        (" text /plain; charset=\"iso-8859-1\"; format=flowed\n", Some(("text", Some("plain"), Some(vec![("charset", "iso-8859-1"), ("format", "flowed")])))),
        ("application/pgp-signature; x-mac-type=70674453;\n    name=PGP.sig\n", Some(("application", Some("pgp-signature"), Some(vec![("name", "PGP.sig"), ("x-mac-type", "70674453")])))),
        ("multipart/mixed; boundary=gc0p4Jq0M2Yt08j34c0p\n", Some(("multipart", Some("mixed"), Some(vec![("boundary", "gc0p4Jq0M2Yt08j34c0p")])))),
        ("multipart/mixed; boundary=gc0pJq0M:08jU534c0p\n", Some(("multipart", Some("mixed"), Some(vec![("boundary", "gc0pJq0M:08jU534c0p")])))),
        ("multipart/mixed; boundary=\"gc0pJq0M:08jU534c0p\"\n", Some(("multipart", Some("mixed"), Some(vec![("boundary", "gc0pJq0M:08jU534c0p")])))),
        ("multipart/mixed; boundary=\"simple boundary\"\n", Some(("multipart", Some("mixed"), Some(vec![("boundary", "simple boundary")])))),
        ("multipart/mixed; boundary=\"foo\n bar\"\n", Some(("multipart", Some("mixed"), Some(vec![("boundary", "foo bar")])))),
        ("multipart/alternative; boundary=boundary42\n", Some(("multipart", Some("alternative"), Some(vec![("boundary", "boundary42")])))),
        (" multipart/mixed;\n     boundary=\"---- main boundary ----\"\n", Some(("multipart", Some("mixed"), Some(vec![("boundary", "---- main boundary ----")])))),
        ("multipart/alternative; boundary=42\n", Some(("multipart", Some("alternative"), Some(vec![("boundary", "42")])))),
        ("message/partial; id=\"ABC@host.com\";\n", Some(("message", Some("partial"), Some(vec![("id", "ABC@host.com")])))),
        ("multipart/parallel;boundary=unique-boundary-2\n", Some(("multipart", Some("parallel"), Some(vec![("boundary", "unique-boundary-2")])))),
        ("message/external-body; name=\"BodyFormats.ps\";\n   site=\"thumper.bellcore.com\"; mode=\"image\";\n  access-type=ANON-FTP; directory=\"pub\";\n  expiration=\"Fri, 14 Jun 1991 19:13:14 -0400 (EDT)\"\n", Some(("message", Some("external-body"), Some(vec![("expiration", "Fri, 14 Jun 1991 19:13:14 -0400 (EDT)"), ("site", "thumper.bellcore.com"), ("directory", "pub"), ("name", "BodyFormats.ps"), ("mode", "image"), ("access-type", "ANON-FTP")])))),
        ("message/external-body; access-type=local-file;\n   name=\"/u/nsb/writing/rfcs/RFC-MIME.ps\";\n    site=\"thumper.bellcore.com\";\n  expiration=\"Fri, 14 Jun 1991 19:13:14 -0400 (EDT)\"\n", Some(("message", Some("external-body"), Some(vec![("expiration", "Fri, 14 Jun 1991 19:13:14 -0400 (EDT)"), ("access-type", "local-file"), ("name", "/u/nsb/writing/rfcs/RFC-MIME.ps"), ("site", "thumper.bellcore.com")])))),
        ("message/external-body;\n    access-type=mail-server\n     server=\"listserv@bogus.bitnet\";\n     expiration=\"Fri, 14 Jun 1991 19:13:14 -0400 (EDT)\"\n", Some(("message", Some("external-body"), Some(vec![("access-type", "mail-server"), ("server", "listserv@bogus.bitnet"), ("expiration", "Fri, 14 Jun 1991 19:13:14 -0400 (EDT)")])))),
        ("Message/Partial; number=2; total=3;\n     id=\"oc=jpbe0M2Yt4s@thumper.bellcore.com\"\n", Some(("message", Some("partial"), Some(vec![("total", "3"), ("number", "2"), ("id", "oc=jpbe0M2Yt4s@thumper.bellcore.com")])))),
        ("multipart/signed; micalg=pgp-sha1; protocol=\"application/pgp-signature\";\n   boundary=\"=-J1qXPoyGtE2XNN5N6Z6j\"\n", Some(("multipart", Some("signed"), Some(vec![("boundary", "=-J1qXPoyGtE2XNN5N6Z6j"), ("micalg", "pgp-sha1"), ("protocol", "application/pgp-signature")])))),
        ("message/external-body;\n    access-type=local-file;\n     name=\"/u/nsb/Me.jpeg\"\n", Some(("message", Some("external-body"), Some(vec![("name", "/u/nsb/Me.jpeg"), ("access-type", "local-file")])))),
        ("message/external-body; access-type=URL;\n    URL*0=\"ftp://\";\n    URL*1=\"cs.utk.edu/pub/moore/bulk-mailer/bulk-mailer.tar\"\n", Some(("message", Some("external-body"), Some(vec![("url", "ftp://cs.utk.edu/pub/moore/bulk-mailer/bulk-mailer.tar"), ("access-type", "URL")])))),
        ("message/external-body; access-type=URL;\n     URL=\"ftp://cs.utk.edu/pub/moore/bulk-mailer/bulk-mailer.tar\"\n", Some(("message", Some("external-body"), Some(vec![("url", "ftp://cs.utk.edu/pub/moore/bulk-mailer/bulk-mailer.tar"), ("access-type", "URL")])))),
        ("application/x-stuff;\n     title*=us-ascii'en-us'This%20is%20%2A%2A%2Afun%2A%2A%2A\n", Some(("application", Some("x-stuff"), Some(vec![("title", "This is ***fun***"), ("title-language", "en-us")])))),
        ("application/x-stuff\n   title*0*=us-ascii'en'This%20is%20even%20more%20\n   title*1*=%2A%2A%2Afun%2A%2A%2A%20\n   title*2=\"isn't it!\"\n", Some(("application", Some("x-stuff"), Some(vec![("title-language", "en"), ("title", "This is even more ***fun*** isn't it!")])))),
        ("application/pdf\n   filename*0*=iso-8859-1'es'%D1and%FA\n   filename*1*=iso-8859-1'%20r%E1pido\n   filename*2*=\"iso-8859-1' (versi%F3n \\'99 \\\"oficial\\\").pdf\"\n", Some(("application", Some("pdf"), Some(vec![("filename", "\u{d1}and\u{fa} r\u{e1}pido (versi\u{f3}n '99 \"oficial\").pdf"), ("filename-language", "es")])))),
        (" image/png;\n   name=\"=?utf-8?q?=E3=83=8F=E3=83=AD=E3=83=BC=E3=83=BB=E3=83=AF=E3=83=BC=E3=83=AB=E3=83=89?=.png\"\n", Some(("image", Some("png"), Some(vec![("name", "\u{30cf}\u{30ed}\u{30fc}\u{30fb}\u{30ef}\u{30fc}\u{30eb}\u{30c9}.png")])))),
        (" image/gif;\n   name==?iso-8859-6?b?5dHNyMcgyMfk2cfk5Q==?=.gif\n", Some(("image", Some("gif"), Some(vec![("name", "\u{645}\u{631}\u{62d}\u{628}\u{627} \u{628}\u{627}\u{644}\u{639}\u{627}\u{644}\u{645}.gif")])))),
        ("image/jpeg;\n   name=\"=?iso-8859-1?B?4Q==?= =?utf-8?B?w6k=?= =?iso-8859-1?q?=ED?=.jpeg\"\n", Some(("image", Some("jpeg"), Some(vec![("name", "\u{e1} \u{e9} \u{ed}.jpeg")])))),
        ("image/jpeg;\n   name==?iso-8859-1?B?4Q==?= =?utf-8?B?w6k=?= =?iso-8859-1?q?=ED?=.jpeg\n", Some(("image", Some("jpeg"), Some(vec![("name", "\u{e1}\u{e9}\u{ed}.jpeg")])))),
        ("image/gif;\n   name==?iso-8859-6?b?5dHNyMcgyMfk2cfk5S5naWY=?=\n", Some(("image", Some("gif"), Some(vec![("name", "\u{645}\u{631}\u{62d}\u{628}\u{627} \u{628}\u{627}\u{644}\u{639}\u{627}\u{644}\u{645}.gif")])))),
        (" image/gif;\n   name=\"=?iso-8859-6?b?5dHNyMcgyMfk2cfk5S5naWY=?=\"\n", Some(("image", Some("gif"), Some(vec![("name", "\u{645}\u{631}\u{62d}\u{628}\u{627} \u{628}\u{627}\u{644}\u{639}\u{627}\u{644}\u{645}.gif")])))),
        (" inline; filename=\"  best \\\"file\\\" ever with \\\\ escaped ' stuff.  \"\n", Some(("inline", None, Some(vec![("filename", "  best \"file\" ever with \\ escaped ' stuff.  ")])))),
        ("test/\n", Some(("test", None, None))),
        ("/invalid\n", None),
        ("/\n", None),
        (";\n", None),
        ("/ ; name=value\n", None),
        ("text/plain;\n", Some(("text", Some("plain"), None))),
        ("text/plain;;\n", Some(("text", Some("plain"), None))),
        ("text/plain ;;;;; = ;; name=\"value\"\n", Some(("text", Some("plain"), Some(vec![("name", "value")])))),
        ("=\n", Some(("=", None, None))),
        ("name=value\n", Some(("name=value", None, None))),
        ("text/plain; name=  \n", Some(("text", Some("plain"), None))),
        ("a/b; = \n", Some(("a", Some("b"), None))),
        ("a/b; = \n \n", Some(("a", Some("b"), None))),
        ("a/b; =value\n", Some(("a", Some("b"), None))),
        ("test/test; =\"value\"\n", Some(("test", Some("test"), None))),
        ("\u{e1}/\u{e9}; \u{e1}=\u{e9}\n", Some(("\u{e1}", Some("\u{e9}"), Some(vec![("\u{e1}", "\u{e9}")])))),
        ("inva/lid; name=\"   \n", Some(("inva", Some("lid"), Some(vec![("name", "   ")])))),
        ("inva/lid; name=\"   \n    \n", Some(("inva", Some("lid"), Some(vec![("name", "       ")])))),
        ("inva/lid; name=\"   \n    \"; test=test\n", Some(("inva", Some("lid"), Some(vec![("test", "test"), ("name", "       ")])))),
        ("name=value\n", Some(("name=value", None, None))),
        ("test/encoded; key4*=us-ascii''foo; key*9999=ba%; key2*0=a; key3*0*=us-ascii'en'xyz; key*0=\"f\u{0}oo\"; key2*1*=b%25; key3*1=plop%; key*1=baz; *=test; =test2;\n", Some(("test", Some("encoded"), Some(vec![("key", "f\u{0}oobazba%"), ("key2", "ab%"), ("key3", "xyzplop%"), ("key4", "foo"), ("key3-language", "en")])))),
        ("text/plain; name*=\"iso-8859-1''HasenundFr%F6sche.txt\"\n", Some(("text", Some("plain"), Some(vec![("name", "HasenundFr\u{f6}sche.txt")])))),
        ("malicious/attempt; 1*2*=a; 3**=b; 4***=c; *5**6*=d;*****7*8*=e; 9*10*11*12*13*14=f; 15*x***fff*===g;1 * 999999999999999999 *= h; 18 *=*=*=*=*==i;\n", Some(("malicious", Some("attempt"), Some(vec![("1", "ha"), ("3", "b"), ("4", "c"), ("5", "d"), ("7", "e"), ("9", "f"), ("15", "==g"), ("18", "*=*=*=*==i")])))),
        (";charset=us-ascii\n", None),
        (" ;charset=us-ascii\n", None),
        ("/\n", None),
        ("/;charset=us-ascii\n", None),
        ("/ ;charset=us-ascii\n", None),
        ("text/\n", Some(("text", None, None))),
        ("text/;charset=us-ascii\n", Some(("text", None, Some(vec![("charset", "us-ascii")])))),
        ("text/ ;charset=us-ascii\n", Some(("text", None, Some(vec![("charset", "us-ascii")])))),
        ("/plain\n", None),
        ("/plain;charset=us-ascii\n", None),
        ("/plain ;charset=us-ascii\n", None),
        ("text/plain\n", Some(("text", Some("plain"), None))),
        ("text/plain;charset=us-ascii\n", Some(("text", Some("plain"), Some(vec![("charset", "us-ascii")])))),
        ("text/plain ;charset=us-ascii\n", Some(("text", Some("plain"), Some(vec![("charset", "us-ascii")])))),
        ("text/plain/format\n", Some(("text", Some("plain/format"), None))),
        ("text/plain/format;charset=us-ascii\n", Some(("text", Some("plain/format"), Some(vec![("charset", "us-ascii")])))),
        ("text/plain/format ;charset=us-ascii\n", Some(("text", Some("plain/format"), Some(vec![("charset", "us-ascii")])))),
        ("application/ld+json\n", Some(("application", Some("ld+json"), None))),
        ("application/ld+json;charset=us-ascii\n", Some(("application", Some("ld+json"), Some(vec![("charset", "us-ascii")])))),
        ("application/ld+json ;charset=us-ascii\n", Some(("application", Some("ld+json"), Some(vec![("charset", "us-ascii")])))),
        ("application/x-magic-cap-package-1.0\n", Some(("application", Some("x-magic-cap-package-1.0"), None))),
        ("application/x-magic-cap-package-1.0;charset=us-ascii\n", Some(("application", Some("x-magic-cap-package-1.0"), Some(vec![("charset", "us-ascii")])))),
        ("application/x-magic-cap-package-1.0 ;charset=us-ascii\n", Some(("application", Some("x-magic-cap-package-1.0"), Some(vec![("charset", "us-ascii")])))),
        ("application/pro_eng\n", Some(("application", Some("pro_eng"), None))),
        ("application/pro_eng;charset=us-ascii\n", Some(("application", Some("pro_eng"), Some(vec![("charset", "us-ascii")])))),
        ("application/pro_eng ;charset=us-ascii\n", Some(("application", Some("pro_eng"), Some(vec![("charset", "us-ascii")])))),
        ("application/wordperfect6.1\n", Some(("application", Some("wordperfect6.1"), None))),
        ("application/wordperfect6.1;charset=us-ascii\n", Some(("application", Some("wordperfect6.1"), Some(vec![("charset", "us-ascii")])))),
        ("application/wordperfect6.1 ;charset=us-ascii\n", Some(("application", Some("wordperfect6.1"), Some(vec![("charset", "us-ascii")])))),
        ("application/vnd.openxmlformats-officedocument.wordprocessingml.template\n", Some(("application", Some("vnd.openxmlformats-officedocument.wordprocessingml.template"), None))),
        ("application/vnd.openxmlformats-officedocument.wordprocessingml.template;charset=us-ascii\n", Some(("application", Some("vnd.openxmlformats-officedocument.wordprocessingml.template"), Some(vec![("charset", "us-ascii")])))),
        ("application/vnd.openxmlformats-officedocument.wordprocessingml.template ;charset=us-asii\n", Some(("application", Some("vnd.openxmlformats-officedocument.wordprocessingml.template"), Some(vec![("charset", "us-asii")])))),
        ("(hello) text (plain) / (world) plain (eod)\n", Some(("text", Some("plain"), None))),
        ("(hello) text (plain) / (world) plain (eod);charset=us-ascii\n", Some(("text", Some("plain"), Some(vec![("charset", "us-ascii")])))),
        ("(hello) text (plain) / (world) plain (eod); charset=us-ascii\n", Some(("text", Some("plain"), Some(vec![("charset", "us-ascii")])))),
        ("message/rfc822\r\n\n", Some(("message", Some("rfc822"), None))),
        (" \t\r message/rfc822 \t\r\n\n", Some(("message", Some("rfc822"), None))),
        (" \t\r message/rfc822 \t ;charset=us-ascii\r\n\n", Some(("message", Some("rfc822"), Some(vec![("charset", "us-ascii")])))),
        (" \t\r message/rfc822 \t ; charset=us-ascii\r\n", Some(("message", Some("rfc822"), Some(vec![("charset", "us-ascii")])))),

    ];

    for (input, want) in inputs {
        let result = flatten(MessageStream::new(input.as_bytes()).parse_content_type());
        assert_eq!(result, expected(want), "Failed for {:?}", input);
    }
}
