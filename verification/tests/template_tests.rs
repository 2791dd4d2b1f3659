use diagram::generate::{all_templates, Template};

#[test]
fn template_names_and_aliases_parse() {
    for t in all_templates() {
        assert_eq!(Template::parse(t.as_str()), Ok(t));
        assert_eq!(Template::parse(&t.as_str().to_uppercase()), Ok(t));
        assert_eq!(Template::parse(&t.as_str().replace('-', "_")), Ok(t));
    }
    assert_eq!(Template::parse("AWS 3 TIER"), Ok(Template::Aws3Tier));
    assert_eq!(Template::parse("gcp_micro"), Ok(Template::GcpMicroservices));
    assert_eq!(Template::parse("azure-hub"), Ok(Template::AzureHubSpoke));
    assert!(Template::parse("k8s").is_err());
}
