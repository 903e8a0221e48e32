use ioc::AppConfigLoader;

#[test]
fn config_loader_defaults() {
    let loader = AppConfigLoader::new();
    assert_eq!(loader.name, "app");
    assert_eq!(loader.dir, ".");
    assert_eq!(loader.profile, "prod");
}

#[test]
fn config_loader_setters_replace_one_field_each() {
    let loader = AppConfigLoader::new().name("my_app").dir("/etc/my_app").profile("dev");
    assert_eq!(loader.name, "my_app");
    assert_eq!(loader.dir, "/etc/my_app");
    assert_eq!(loader.profile, "dev");
}
