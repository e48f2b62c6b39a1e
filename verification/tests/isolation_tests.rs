use wavecore::isolation::{IframeSandboxPolicy, SiteInstance, SiteIsolationManager};
use wavecore::sandbox::Origin;

#[test]
fn wpt_site_isolation_and_iframe_sandbox() {
    let origin_a = Origin::parse("https://account.bank.com").unwrap();
    let origin_b = Origin::parse("https://ad.tracker.com").unwrap();

    let mut sim = SiteIsolationManager::new();
    let pid_a = sim.get_or_assign_process_id(&origin_a);
    let pid_b = sim.get_or_assign_process_id(&origin_b);
    assert_ne!(pid_a, pid_b);
    assert!(sim.are_sites_isolated(&origin_a, &origin_b));

    // Subdomains share site instance
    let origin_a2 = Origin::parse("https://secure.bank.com").unwrap();
    let pid_a2 = sim.get_or_assign_process_id(&origin_a2);
    assert_eq!(pid_a, pid_a2);
    assert_eq!(SiteInstance::for_origin(&origin_a), SiteInstance::for_origin(&origin_a2));

    // Iframe sandbox restriction
    let sb = IframeSandboxPolicy::parse(Some("allow-forms"));
    assert!(sb.is_sandboxed);
    assert!(!sb.allows_scripts());
    assert!(sb.effective_origin(&origin_a).is_opaque());
}

#[test]
fn sites_of_origins() {
    let s = SiteInstance::for_origin(&Origin::parse("https://a.b.example.co:8443/x").unwrap());
    assert_eq!(s, SiteInstance { scheme: "https".to_string(), site: "example.co".to_string() });
    let s = SiteInstance::for_origin(&Origin::parse("http://localhost:3000").unwrap());
    assert_eq!(s.site, "localhost");
    let s = SiteInstance::for_origin(&Origin::parse("http://192.168.0.10/").unwrap());
    assert_eq!(s.site, "192.168.0.10");
    let s = SiteInstance::for_origin(&Origin::parse("http://[::1]:8080/").unwrap());
    assert_eq!(s.site, "[::1]");
    let o = Origin::parse("data:text/html,x").unwrap();
    let s = SiteInstance::for_origin(&o);
    assert_eq!(s.scheme, "");
    assert_eq!(s.site, o.to_string_repr());
}

#[test]
fn process_ids_count_up_per_new_site() {
    let mut sim = SiteIsolationManager::new();
    let a = Origin::parse("https://one.test").unwrap();
    let b = Origin::parse("http://one.test").unwrap();
    let c = Origin::parse("https://x.one.test").unwrap();
    assert_eq!(sim.get_or_assign_process_id(&a), 1);
    assert_eq!(sim.get_or_assign_process_id(&b), 2);
    assert_eq!(sim.get_or_assign_process_id(&c), 1);
    assert_eq!(sim.get_or_assign_process_id(&b), 2);
    assert!(sim.are_sites_isolated(&a, &b));
    assert!(!sim.are_sites_isolated(&a, &c));
}

#[test]
fn sandbox_tokens() {
    let none = IframeSandboxPolicy::parse(None);
    assert!(!none.is_sandboxed);
    assert!(none.allows_scripts() && none.allows_forms() && none.allows_popups() && none.allows_top_navigation());
    let o = Origin::parse("https://a.test").unwrap();
    assert_eq!(none.effective_origin(&o), o);

    let all = IframeSandboxPolicy::parse(Some(""));
    assert!(all.is_sandboxed);
    assert!(!all.allows_scripts() && !all.allows_forms() && !all.allows_popups() && !all.allows_top_navigation());

    let p = IframeSandboxPolicy::parse(Some("  ALLOW-SCRIPTS\tallow-same-origin allow-popups "));
    assert!(p.allows_scripts());
    assert!(p.allows_popups());
    assert!(!p.allows_forms());
    assert_eq!(p.effective_origin(&o), o);

    let q = IframeSandboxPolicy::parse(Some("allow-scripts"));
    let e = q.effective_origin(&o);
    assert!(e.is_opaque());
    assert!(!e.is_same_origin(&o));
    assert_eq!(e, q.effective_origin(&o));
}
