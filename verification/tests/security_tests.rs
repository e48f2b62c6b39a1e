use wavecore::sandbox::{
    fast_hash, ContentSecurityPolicy, CspDirective, Origin, Permission, PermissionManager, PermissionState,
    RenderProcessSandbox,
};

#[test]
fn same_origin_policy_rules() {
    let o1 = Origin::parse("https://example.com/page1").unwrap();
    let o2 = Origin::parse("https://example.com:443/page2").unwrap();
    let o3 = Origin::parse("http://example.com/page1").unwrap();
    let o4 = Origin::parse("https://sub.example.com/page1").unwrap();
    let o_opaque = Origin::parse("data:text/html,test").unwrap();

    assert!(o1.is_same_origin(&o2));
    assert!(!o1.is_same_origin(&o3)); // Protocol mismatch
    assert!(!o1.is_same_origin(&o4)); // Domain mismatch
    assert!(o_opaque.is_opaque());
    assert!(!o1.is_same_origin(&o_opaque));
}

#[test]
fn csp_evaluation() {
    let csp = ContentSecurityPolicy::parse(
        "default-src 'self'; script-src 'self' https://trusted.cdn.com; img-src * data:;",
    );
    let origin = Origin::parse("https://myapp.com").unwrap();

    // Scripts
    assert!(csp.allows_script(&origin, Some("https://myapp.com/app.js"), false));
    assert!(csp.allows_script(&origin, Some("https://trusted.cdn.com/lib.js"), false));
    assert!(!csp.allows_script(&origin, Some("https://evil.com/hack.js"), false));
    assert!(!csp.allows_script(&origin, None, true)); // Inline rejected

    // Images
    assert!(csp.allows_image(&origin, "https://anywhere.com/img.png"));
    assert!(csp.allows_image(&origin, "data:image/png;base64,..."));

    // Connect (falls back to default-src 'self')
    assert!(csp.allows_connect(&origin, "https://myapp.com/api/v1"));
    assert!(!csp.allows_connect(&origin, "https://api.external.com/data"));
}

#[test]
fn permission_manager_flow() {
    let mut mgr = PermissionManager::new();
    let origin = Origin::parse("https://maps.example.com").unwrap();

    assert_eq!(mgr.query(&origin, Permission::Geolocation), PermissionState::Prompt);
    mgr.set_permission(origin.clone(), Permission::Geolocation, PermissionState::Granted);
    assert_eq!(mgr.query(&origin, Permission::Geolocation), PermissionState::Granted);
}

#[test]
fn sandbox_process_isolation() {
    let origin = Origin::parse("https://sandbox.test").unwrap();
    let sandbox = RenderProcessSandbox::new_isolated(42, origin);
    assert!(sandbox.check_file_access().is_err());
    assert!(sandbox.check_direct_network_access().is_err());
}

#[test]
fn origin_parse_shapes() {
    assert_eq!(
        Origin::parse("HTTPS://Example.COM:8443/x").unwrap(),
        Origin::Tuple { scheme: "https".to_string(), host: "example.com".to_string(), port: 8443 }
    );
    assert_eq!(
        Origin::parse("http://a.test/").unwrap(),
        Origin::Tuple { scheme: "http".to_string(), host: "a.test".to_string(), port: 80 }
    );
    assert_eq!(
        Origin::parse("  file:///etc/hosts ").unwrap(),
        Origin::Tuple { scheme: "file".to_string(), host: String::new(), port: 0 }
    );
    assert_eq!(Origin::parse("").unwrap(), Origin::Opaque(format!("opaque:{}", 0xcbf29ce484222325u64)));
    assert!(Origin::parse("javascript:alert(1)").unwrap().is_opaque());
    assert!(Origin::parse("not a url").is_err());
}

#[test]
fn opaque_origin_is_not_same_origin_with_itself() {
    let o = Origin::parse("data:,x").unwrap();
    assert!(!o.is_same_origin(&o));
    let t = Origin::parse("https://x.test").unwrap();
    assert!(t.is_same_origin(&t));
}

#[test]
fn origin_string_forms() {
    assert_eq!(Origin::parse("https://example.com").unwrap().to_string_repr(), "https://example.com");
    assert_eq!(Origin::parse("http://example.com:8080").unwrap().to_string_repr(), "http://example.com:8080");
    assert_eq!(Origin::parse("file:///a").unwrap().to_string_repr(), "file://");
    let o = Origin::parse("https://a.test").unwrap();
    assert_eq!(o.debug_repr(), format!("{:?}", o));
    assert_eq!(o.duplicate(), o);
}

#[test]
fn fnv1a_known_values() {
    assert_eq!(fast_hash(""), 0xcbf29ce484222325);
    assert_eq!(fast_hash("a"), 0xaf63dc4c8601ec8c);
    assert_eq!(fast_hash("foobar"), 0x85944171f73967e8);
}

#[test]
fn csp_none_inline_and_wildcards() {
    let origin = Origin::parse("https://site.test").unwrap();
    let none = CspDirective { name: "script-src".to_string(), values: vec!["'none'".to_string(), "*".to_string()] };
    assert!(!none.allows("https://site.test/a.js", &origin, false));
    let inline = CspDirective { name: "style-src".to_string(), values: vec!["'unsafe-inline'".to_string()] };
    assert!(inline.allows("", &origin, true));
    assert!(!inline.allows("https://site.test/a.css", &origin, false));
    let sub = CspDirective { name: "img-src".to_string(), values: vec!["*.cdn.test".to_string(), "host.test".to_string()] };
    assert!(sub.allows("https://img.cdn.test/x.png", &origin, false));
    assert!(sub.allows("https://host.test/x.png", &origin, false));
    assert!(!sub.allows("https://other.test/x.png", &origin, false));
}

#[test]
fn csp_without_directives_allows_everything_and_names_are_lowercased() {
    let csp = ContentSecurityPolicy::parse("");
    let origin = Origin::parse("https://a.test").unwrap();
    assert!(csp.allows_script(&origin, Some("https://b.test/x.js"), true));
    let csp = ContentSecurityPolicy::parse("STYLE-SRC 'self'");
    assert!(csp.directive("style-src").is_some());
    assert!(csp.allows_style(&origin, Some("https://a.test/s.css"), false));
    assert!(!csp.allows_style(&origin, Some("https://b.test/s.css"), false));
}

#[test]
fn csp_later_directive_of_the_same_name_wins() {
    let csp = ContentSecurityPolicy::parse("img-src 'none'; img-src *");
    let origin = Origin::parse("https://a.test").unwrap();
    assert!(csp.allows_image(&origin, "https://x.test/i.png"));
    assert_eq!(csp.directive("img-src").unwrap().values, vec!["*".to_string()]);
}

#[test]
fn permissions_are_kept_per_origin_and_kind() {
    let mut mgr = PermissionManager::new();
    let a = Origin::parse("https://a.test").unwrap();
    let b = Origin::parse("https://b.test").unwrap();
    mgr.set_permission(a.clone(), Permission::Camera, PermissionState::Denied);
    assert_eq!(mgr.query(&a, Permission::Camera), PermissionState::Denied);
    assert_eq!(mgr.query(&a, Permission::Microphone), PermissionState::Prompt);
    assert_eq!(mgr.query(&b, Permission::Camera), PermissionState::Prompt);
    mgr.set_permission(a.clone(), Permission::Camera, PermissionState::Granted);
    assert_eq!(mgr.query(&a, Permission::Camera), PermissionState::Granted);
}

#[test]
fn sandbox_refusal_messages() {
    let origin = Origin::parse("https://sandbox.test").unwrap();
    let sandbox = RenderProcessSandbox::new_isolated(7, origin.clone());
    assert_eq!(
        sandbox.check_file_access().unwrap_err(),
        format!("SecurityError: Render process 7 for origin {:?} is sandboxed from filesystem access", origin)
    );
    assert_eq!(
        sandbox.check_direct_network_access().unwrap_err(),
        format!(
            "SecurityError: Render process 7 for origin {:?} must broker network access through the browser process",
            origin
        )
    );
    let mut open = sandbox.clone();
    open.can_access_filesystem_directly = true;
    open.can_access_network_directly = true;
    assert!(open.check_file_access().is_ok());
    assert!(open.check_direct_network_access().is_ok());
}
