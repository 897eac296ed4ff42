use tiny_crawler::is_valid_url;
use tiny_crawler::parser::ContentParser;
use url::Url;

#[test]
fn test_validate_url() {
    let url = "https:item?id=45109927";
    assert!(is_valid_url(url));

    let res = Url::parse(url);
    assert!(res.is_ok());

    let res1 = Url::parse("example.com");
    println!("res1: {:?}", res1);
    assert!(res1.is_err());
}

#[test]
fn test_parse_html() {
    let html = r#"<html>
        <title>Hello</title>
        <body>
        <a href="https://github.com/alex">Alex Github</a>
        <a href="/logout">Logout</a>
        </body>
        </html>"#;
    let p = ContentParser::new();
    let res = p.parse(html, "https://github.com", 0);
    assert!(res.is_ok());

    let data = res.unwrap();
    println!("title: {}", data.title);
    println!("links: {:?}", data.links);

    assert_eq!(data.title, "Hello".to_string());
    assert_eq!(
        data.links,
        [
            "https://github.com/alex".to_string(),
            "https://github.com/logout".to_string()
        ]
        .to_vec()
    );
}
