use configy_api::data::{Data, Host, System, Volume, values_of_hosts, values_of_systems,
    values_of_volumes};
use configy_api::response::negotiate_response;

fn mock_data() -> Data {
    let systems = vec![
        (
            "system1".to_string(),
            System {
                id: None,
                domain: Some("s1.example.com".to_string()),
                http_port: Some(80),
                hosts: vec!["host1".to_string()],
            },
        ),
        (
            "system2".to_string(),
            System {
                id: None,
                domain: Some("s2.test.com".to_string()),
                http_port: Some(8080),
                hosts: vec!["host1".to_string(), "host2".to_string()],
            },
        ),
    ];
    let volumes = vec![
        (
            "vol1".to_string(),
            Volume {
                id: None,
                description: Some("Volume 1".to_string()),
                recreate_effort: Some("Low".to_string()),
                skip_backup: false,
            },
        ),
        (
            "vol2".to_string(),
            Volume {
                id: None,
                description: Some("Volume 2".to_string()),
                recreate_effort: None,
                skip_backup: true,
            },
        ),
    ];
    let hosts = vec![
        (
            "host1".to_string(),
            Host { id: None, domain: Some("h1.example.com".to_string()) },
        ),
        (
            "host2".to_string(),
            Host { id: None, domain: Some("h2.example.com".to_string()) },
        ),
    ];
    Data::from_entries(systems, volumes, hosts)
}

#[test]
fn validate_config_files() {
    let data = mock_data();

    println!("Successfully loaded config:");
    println!("  Systems: {}", data.system_count());
    println!("  Volumes: {}", data.volume_count());
    println!("  Hosts: {}", data.host_count());

    assert!(data.system_count() > 0, "No systems found in config");
    assert!(data.host_count() > 0, "No hosts found in config");
}

#[test]
fn from_entries_sets_ids_from_keys() {
    let data = mock_data();
    let systems = data.get_systems();
    assert_eq!(systems.len(), 2);
    assert_eq!(systems[0].id.as_deref(), Some("system1"));
    assert_eq!(systems[1].id.as_deref(), Some("system2"));
    assert_eq!(systems[1].hosts, vec!["host1".to_string(), "host2".to_string()]);
    let volumes = data.get_volumes();
    assert_eq!(volumes[0].id.as_deref(), Some("vol1"));
    assert!(volumes[1].skip_backup);
    let hosts = data.get_hosts();
    assert_eq!(hosts[0].id.as_deref(), Some("host1"));
    assert_eq!(hosts[1].domain.as_deref(), Some("h2.example.com"));
}

#[test]
fn test_systems_all() {
    let data = mock_data();
    let records = values_of_systems(&data.get_systems());
    let (content_type, body) = negotiate_response(None, None, &records);
    assert_eq!(content_type, "application/json");
    assert_eq!(
        body,
        "[{\"id\":\"system1\",\"domain\":\"s1.example.com\",\"http_port\":80,\"hosts\":[\"host1\"]},\
         {\"id\":\"system2\",\"domain\":\"s2.test.com\",\"http_port\":8080,\"hosts\":[\"host1\",\"host2\"]}]"
    );
}

#[test]
fn test_systems_subdomain() {
    let data = mock_data();
    let root_domain = "example.com".to_string();
    let subdomains = data.get_systems_filtered(|system: &System| {
        system.domain.as_ref().is_some_and(|domain| domain.ends_with(root_domain.as_str()))
    });
    assert_eq!(subdomains.len(), 1);
    assert_eq!(subdomains[0].domain.as_deref(), Some("s1.example.com"));
}

#[test]
fn test_systems_http() {
    let data = mock_data();
    let http_systems = data.get_systems_filtered(|system: &System| system.http_port.is_some());
    assert_eq!(http_systems.len(), 2);
}

#[test]
fn test_systems_host() {
    let data = mock_data();
    let host = "host2".to_string();
    let systems_on_host =
        data.get_systems_filtered(|system: &System| system.hosts.contains(&host));
    assert_eq!(systems_on_host.len(), 1);
    assert_eq!(systems_on_host[0].id.as_deref(), Some("system2"));
}

#[test]
fn test_volumes_all() {
    let data = mock_data();
    let records = values_of_volumes(&data.get_volumes());
    let (content_type, body) = negotiate_response(None, None, &records);
    assert_eq!(content_type, "application/json");
    assert_eq!(
        body,
        "[{\"id\":\"vol1\",\"description\":\"Volume 1\",\"recreate_effort\":\"Low\",\"skip_backup\":false},\
         {\"id\":\"vol2\",\"description\":\"Volume 2\",\"recreate_effort\":null,\"skip_backup\":true}]"
    );
}

#[test]
fn test_hosts_all() {
    let data = mock_data();
    let records = values_of_hosts(&data.get_hosts());
    let (content_type, body) = negotiate_response(None, None, &records);
    assert_eq!(content_type, "application/json");
    assert_eq!(
        body,
        "[{\"id\":\"host1\",\"domain\":\"h1.example.com\"},{\"id\":\"host2\",\"domain\":\"h2.example.com\"}]"
    );
}

#[test]
fn test_content_negotiation_yaml() {
    let data = mock_data();
    let records = values_of_systems(&data.get_systems());
    let (content_type, body) = negotiate_response(Some("application/x-yaml"), None, &records);
    assert_eq!(content_type, "application/yaml");
    assert!(body.contains("id: \"system1\""));
    assert!(body.contains("http_port: 80"));
}

#[test]
fn test_content_negotiation_csv() {
    let data = mock_data();
    let records = values_of_systems(&data.get_systems());
    let (content_type, body) = negotiate_response(Some("text/csv"), None, &records);
    assert_eq!(content_type, "text/csv");
    // The variable-length `hosts` list is excluded from the inferred
    // columns.
    assert_eq!(
        body,
        "id,domain,http_port\nsystem1,s1.example.com,80\nsystem2,s2.test.com,8080\n"
    );
}

#[test]
fn test_query_params_fields() {
    let data = mock_data();
    let records = values_of_systems(&data.get_systems());
    let (_, body) = negotiate_response(None, Some("id,domain"), &records);
    assert!(body.contains("\"id\":\"system1\""));
    assert!(body.contains("\"domain\":\"s1.example.com\""));
    assert!(!body.contains("http_port"));
}
