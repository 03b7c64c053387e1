use tnt_delivery_bot::token_parse::parse_token;

#[test]
fn bare_token() {
    assert_eq!(parse_token("3abc128856").as_deref(), Some("3abc128856"));
    assert_eq!(parse_token("  3abc128856 \n").as_deref(), Some("3abc128856"));
}

#[test]
fn api_url() {
    assert_eq!(
        parse_token("https://tmsapi.tntsupermarket.us/track/customer?token=3abc128856").as_deref(),
        Some("3abc128856")
    );
}

#[test]
fn tracking_hash_url() {
    assert_eq!(
        parse_token("https://tmstracking.tntsupermarket.us/#/3abc128856").as_deref(),
        Some("3abc128856")
    );
}

#[test]
fn full_sentence_with_url() {
    let msg = "Your T&T order 000039752 is on the way. https://tmstracking.tntsupermarket.us/#/3abc128856 [Do Not Reply]";
    assert_eq!(parse_token(msg).as_deref(), Some("3abc128856"));
}

#[test]
fn sentence_without_url_is_not_token() {
    assert_eq!(parse_token("Your T&T order 000039752 is on the way."), None);
}

#[test]
fn junk_is_none() {
    assert_eq!(parse_token("hello there!"), None);
    assert_eq!(parse_token(""), None);
}

#[test]
fn readme_forms_give_the_same_token() {
    assert_eq!(parse_token("3abc126").as_deref(), Some("3abc126"));
    assert_eq!(
        parse_token("https://tmstracking.tntsupermarket.us/#/3abc156").as_deref(),
        Some("3abc156")
    );
    assert_eq!(
        parse_token("https://tmsapi.tntsupermarket.us/track/customer?token=3abc856").as_deref(),
        Some("3abc856")
    );
    assert_eq!(
        parse_token("Your T&T order 0000752 is on the way. https://tmstracking.tntsupermarket.us/#/3a28856 [Do Not Reply]")
            .as_deref(),
        Some("3a28856")
    );
}

#[test]
fn query_token_wins_over_hash() {
    assert_eq!(parse_token("x#/HASH1?token=QUERY1").as_deref(), Some("QUERY1"));
    assert_eq!(parse_token("a&token=AMP9&token=LATER").as_deref(), Some("AMP9"));
}

#[test]
fn token_stops_at_first_non_alnum() {
    assert_eq!(parse_token("?token=ab-cd").as_deref(), Some("ab"));
    assert_eq!(parse_token("#/xyz/123").as_deref(), Some("xyz"));
}

#[test]
fn empty_query_value_falls_through() {
    assert_eq!(parse_token("?token=&x #/K9").as_deref(), Some("K9"));
    assert_eq!(parse_token("?token=-"), None);
}

#[test]
fn bare_token_length_bounds() {
    assert_eq!(parse_token("abc"), None);
    assert_eq!(parse_token("abcd").as_deref(), Some("abcd"));
    let t32 = "a".repeat(32);
    assert_eq!(parse_token(&t32).as_deref(), Some(t32.as_str()));
    assert_eq!(parse_token(&"a".repeat(33)), None);
}

#[test]
fn bare_token_trims_unicode_whitespace() {
    assert_eq!(parse_token("\u{3000}TOK1\u{00A0}").as_deref(), Some("TOK1"));
    assert_eq!(parse_token("to ken"), None);
    assert_eq!(parse_token("tökén"), None);
}

#[test]
fn parsed_token_is_a_piece_of_the_message() {
    for msg in [
        "see https://x/track?id=1&token=Ab12cd#frag",
        "Your order https://tmstracking.tntsupermarket.us/#/3abc128856 [Do Not Reply]",
        "\t  abcd1234 \n",
    ] {
        let t = parse_token(msg).unwrap();
        assert!(msg.contains(t.as_str()));
    }
    // no link form: the trimmed text when it is 4 to 32 letters and digits
    assert_eq!(parse_token("  abc  "), None);
    assert_eq!(parse_token(" abcd "), Some("abcd".to_string()));
    assert_eq!(parse_token(&"a".repeat(33)), None);
}
