use ch32_data::nv_descriptors::{descriptor_json_path, descriptor_name, validation_report};

#[test]
fn descriptor_name_drops_the_yaml_suffix() {
    assert_eq!(descriptor_name("ob_v3.yaml"), Some("ob_v3".to_string()));
    assert_eq!(descriptor_name(".yaml"), Some(String::new()));
    assert_eq!(descriptor_name("ob_v3.yml"), None);
    assert_eq!(descriptor_name("yaml"), None);
}

#[test]
fn validation_report_lists_each_error() {
    assert_eq!(validation_report("ob_v3", &Vec::new()), None);
    let errors = vec!["field A overlaps B".to_string(), "enum E unused".to_string()];
    assert_eq!(
        validation_report("ob_v3", &errors),
        Some("\nob_v3:\nfield A overlaps B\nenum E unused\n".to_string())
    );
}

#[test]
fn descriptor_json_goes_under_build() {
    assert_eq!(descriptor_json_path("ob_v3"), "build/data/nv/ob_v3.json");
}
