use darkui::codec::{encode_privmsg_payload, MessageId, MsgRecord, MsgType};
use darkui::privmsg::{
    is_notice, parse_ctcp_action, read_nick_colors, sanitize_url, select_nick_color, url_color_ranges, url_ranges_of,
    PrivData,
};

fn priv_rec(nick: &str, text: &str) -> MsgRecord {
    let mut rec = MsgRecord::new(0, MessageId([0; 32]), MsgType::PrivMsg);
    rec.payload = encode_privmsg_payload(nick, text, true);
    rec
}

fn make_priv(text: &str) -> PrivData {
    PrivData::from_record(&priv_rec("alice", text)).unwrap()
}

#[test]
fn ctcp_action_parsing() {
    assert_eq!(parse_ctcp_action("\u{1}ACTION waves\u{1}"), Some("waves"));
    assert_eq!(parse_ctcp_action("\u{1}ACTION waves"), Some("waves"));
    assert_eq!(parse_ctcp_action("waves"), None);
    assert_eq!(parse_ctcp_action("\u{1}PING\u{1}"), None);
}

#[test]
fn ctcp_action_fully_framed() {
    assert_eq!(parse_ctcp_action("\u{1}ACTION waves\u{1}"), Some("waves"));
}

#[test]
fn ctcp_action_missing_trailing_delimiter() {
    assert_eq!(parse_ctcp_action("\u{1}ACTION waves"), Some("waves"));
}

#[test]
fn ctcp_action_empty_body() {
    assert_eq!(parse_ctcp_action("\u{1}ACTION \u{1}"), Some(""));
    assert_eq!(parse_ctcp_action("\u{1}ACTION "), Some(""));
}

#[test]
fn ctcp_action_not_an_action() {
    assert_eq!(parse_ctcp_action("waves"), None);
    assert_eq!(parse_ctcp_action("waves\u{1}"), None);
    assert_eq!(parse_ctcp_action("see \u{1}ACTION waves\u{1} here"), None);
    assert_eq!(parse_ctcp_action("\u{1}action waves\u{1}"), None);
    assert_eq!(parse_ctcp_action("\u{1}PING\u{1}"), None);
}

#[test]
fn ctcp_action_strips_one_delimiter_only() {
    assert_eq!(parse_ctcp_action("\u{1}ACTION a\u{1}\u{1}"), Some("a\u{1}"));
    assert_eq!(parse_ctcp_action("\u{1}ACTION héllo ☃\u{1}"), Some("héllo ☃"));
}

#[test]
fn privmsg_action_detection() {
    let m = make_priv("\u{1}ACTION waves\u{1}");
    assert!(m.is_action);
    assert_eq!(m.text, "waves");

    let m = make_priv("\u{1}ACTION waves");
    assert!(m.is_action);
    assert_eq!(m.text, "waves");

    let m = make_priv("/me waves");
    assert!(!m.is_action);
    assert_eq!(m.text, "/me waves");
}

#[test]
fn action_line_text_and_body_offset() {
    let m = make_priv("\u{1}ACTION waves\u{1}");
    assert_eq!(m.line_text(), "* alice waves");
    assert_eq!(m.body_offset(), "alice".len() + 3);

    let m = make_priv("waves");
    assert!(!m.is_action);
    assert_eq!(m.line_text(), "alice waves");
    assert_eq!(m.body_offset(), "alice".len() + 1);
}

#[test]
fn line_text_variants() {
    let data = PrivData {
        ts: 0,
        id: MessageId([0; 32]),
        nick: "alice".to_string(),
        text: "waves".to_string(),
        confirmed: true,
        is_action: true,
        is_notice: false,
        expanded: true,
    };
    assert_eq!(data.line_text(), "* alice waves");
    assert_eq!(data.body_offset(), "alice".len() + 3);

    let data = PrivData { is_action: false, ..data };
    assert_eq!(data.line_text(), "alice waves");
    assert_eq!(data.body_offset(), "alice".len() + 1);

    let data = PrivData { nick: "NOTICE".to_string(), is_notice: true, ..data };
    assert_eq!(data.line_text(), "waves");
    assert_eq!(data.body_offset(), 0);
}

#[test]
fn from_record_recognises_notices_and_starts_expanded() {
    let d = PrivData::from_record(&priv_rec("NOTICE", "server says hi")).unwrap();
    assert!(d.is_notice);
    assert!(d.expanded);
    assert!(d.confirmed);
    assert_eq!(d.line_text(), "server says hi");
    let mut bad = priv_rec("alice", "x");
    bad.payload.truncate(3);
    assert!(PrivData::from_record(&bad).is_err());
}

#[test]
fn notice_nick_is_exact() {
    assert!(is_notice("NOTICE"));
    assert!(!is_notice("NOTICE2"));
    assert!(!is_notice("notice"));
    assert!(!is_notice(""));
}

#[test]
fn body_offset_counts_bytes() {
    let m = PrivData::from_record(&priv_rec("zoë", "hi")).unwrap();
    let line = m.line_text();
    assert_eq!(&line[m.body_offset()..], "hi");
    let m = PrivData::from_record(&priv_rec("zoë", "\u{1}ACTION hi")).unwrap();
    let line = m.line_text();
    assert_eq!(&line[m.body_offset()..], "hi");
}

#[test]
fn nick_color_is_stable_and_falls_back_to_white() {
    let white = [1., 1., 1., 1.];
    let palette: [[f32; 4]; 3] = [[1., 0., 0., 1.], [0., 1., 0., 1.], [0., 0., 1., 1.]];
    assert_eq!(select_nick_color("alice", &[], white), white);
    let c1 = select_nick_color("alice", &palette, white);
    let c2 = select_nick_color("alice", &palette, white);
    assert_eq!(c1, c2);
    assert!(palette.contains(&c1));
    assert_eq!(select_nick_color("bob", &palette[..1], white), palette[0]);
}

#[test]
fn url_ranges_shift_past_the_prefix() {
    let m = make_priv("see https://example.com/now okay");
    let ranges = url_ranges_of(&m);
    assert_eq!(ranges.len(), 1);
    let line = m.line_text();
    assert_eq!(&line[ranges[0].clone()], "https://example.com/now");
    let m = make_priv("\u{1}ACTION likes www.a.org and fud://abc/x.png");
    let ranges = url_ranges_of(&m);
    let line = m.line_text();
    let urls: Vec<&str> = ranges.iter().map(|r| &line[r.clone()]).collect();
    assert_eq!(urls, vec!["www.a.org", "fud://abc/x.png"]);
    assert!(url_ranges_of(&make_priv("no links here")).is_empty());
}

#[test]
fn url_sanitization() {
    assert_eq!(sanitize_url("https://example.com/").as_deref(), Some("https://example.com/"));
    assert_eq!(sanitize_url("https://example.com/path.").as_deref(), Some("https://example.com/path"));
    assert_eq!(sanitize_url("https://example.com/a,b!").as_deref(), Some("https://example.com/a,b"));
    assert_eq!(sanitize_url("www.example.com/x").as_deref(), Some("https://www.example.com/x"));
    // Interior control characters (incl. NUL): rejected. A trailing
    // one is trimmed — the cleaned URL stays usable.
    assert_eq!(sanitize_url("https://evil.com/\u{0}x"), None);
    assert_eq!(sanitize_url("https://evil.com/x\u{0}").as_deref(), Some("https://evil.com/x"));
    // Non-http(s)/fud schemes cannot appear via the regex, but the
    // parser gate holds anyway.
    assert_eq!(sanitize_url("file:///etc/passwd"), None);
    // fud URLs stay untouched.
    assert_eq!(sanitize_url("fud://abcdef012345/file.png").as_deref(), Some("fud://abcdef012345/file.png"));
}

#[test]
fn url_color_ranges_tag_every_match() {
    let ranges = url_color_ranges("see https://a.io and www.b.io", 7, 'u');
    assert_eq!(ranges, vec![(11..23, 'u'), (28..36, 'u')]);
    assert!(url_color_ranges("no links", 0, 'u').is_empty());
}

#[test]
fn nick_palette_groups_components() {
    let values: Vec<u32> = (0..9).collect();
    // Each color is taken at every fourth component past the first.
    assert_eq!(read_nick_colors(&values, 0), vec![[4, 1, 2, 3], [8, 5, 6, 7]]);
    assert!(read_nick_colors::<u32>(&[], 0).is_empty());
    assert!(read_nick_colors(&[1u32, 2, 3, 4], 0).is_empty());
}

#[test]
fn url_runs_follow_the_regex() {
    // Runs stop at Unicode whitespace; a bare prefix is no match; runs
    // do not overlap, so a prefix inside a run starts nothing.
    let t = "x http://a\u{2003}https:// www.q fud://z,http://w";
    let r = url_color_ranges(t, 0, ());
    let spans: Vec<(usize, usize)> = r.iter().map(|(g, _)| (g.start, g.end)).collect();
    let words: Vec<&str> = spans.iter().map(|&(a, b)| &t[a..b]).collect();
    assert_eq!(words, vec!["http://a", "www.q", "fud://z,http://w"]);
    assert!(url_color_ranges("http:// www. fud://", 0, ()).is_empty());
}

#[test]
fn parsed_url_kept_only_for_web_and_fud_schemes() {
    let p = |a: &str, b: &str| Some((a.to_string(), b.to_string()));
    assert_eq!(darkui::privmsg::accept_parsed_url(p("https", "https://a.io/")).as_deref(), Some("https://a.io/"));
    assert_eq!(darkui::privmsg::accept_parsed_url(p("http", "http://a.io/")).as_deref(), Some("http://a.io/"));
    assert_eq!(darkui::privmsg::accept_parsed_url(p("fud", "fud://x")).as_deref(), Some("fud://x"));
    assert_eq!(darkui::privmsg::accept_parsed_url(p("file", "file:///etc/passwd")), None);
    assert_eq!(darkui::privmsg::accept_parsed_url(p("HTTPS", "x")), None);
    assert_eq!(darkui::privmsg::accept_parsed_url(None), None);
}
