#[test]
fn test_lazy_parsing_feature_enabled() {
    println!("Lazy parsing feature is enabled!");
    assert!(true);
}
