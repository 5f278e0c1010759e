use rustls::client::EchGreaseConfig;
use rustls::crypto::aws_lc_rs::hpke::DH_KEM_X25519_HKDF_SHA256_AES_128;
use rustls::crypto::hpke::HpkePublicKey;
use rustls::RootCertStore;
use sni_gate::config::{EchMode, EffectiveEch};
use sni_gate::ech::provider::{EchProvider, Step};
use sni_gate::ech::{
    acquire_config_list, acquire_resolver_ech, decode_ech_b64, first_ech, grease_mode, https_lookup_name,
    placeholder_mode, refresh_after, resolver_client_config, EchError, HttpsRecord, Mode, ResolverEch,
};
use sni_gate::time::{Duration, Instant};
use std::sync::Arc;

fn settings(mode: EchMode, config: Option<&str>) -> EffectiveEch {
    EffectiveEch { mode, config: config.map(str::to_string), ech_domain: None, max_retries: 1 }
}

fn at(secs: u64) -> Instant {
    Instant { nanos: secs as u128 * 1_000_000_000 }
}

fn provider(mode: EchMode, config: Option<&str>, require_ech: bool) -> EchProvider {
    EchProvider::new(
        settings(mode, config),
        443,
        require_ech,
        true,
        Arc::new(RootCertStore::empty()),
        Duration::from_secs(60),
    )
}

/// A list of one configuration that the TLS library supports: X25519, HKDF-SHA256
/// and AES-128-GCM, with a fixed public key, for `public.test`.
fn usable_list() -> Vec<u8> {
    let name = b"public.test";
    let mut contents = vec![7u8, 0x00, 0x20, 0x00, 32];
    contents.extend_from_slice(&[9u8; 32]);
    contents.extend_from_slice(&[0, 4, 0x00, 0x01, 0x00, 0x01]);
    contents.push(0);
    contents.push(name.len() as u8);
    contents.extend_from_slice(name);
    contents.extend_from_slice(&[0, 0]);
    let mut config = vec![0xfe, 0x0d];
    config.extend_from_slice(&(contents.len() as u16).to_be_bytes());
    config.extend_from_slice(&contents);
    let mut list = (config.len() as u16).to_be_bytes().to_vec();
    list.extend_from_slice(&config);
    list
}

fn published(list: Vec<u8>) -> Result<Vec<HttpsRecord>, String> {
    Ok(vec![HttpsRecord { ttl: 60, ech: vec![list] }])
}

#[test]
fn other_ports_have_a_prefix() {
    assert_eq!(https_lookup_name("a.test", 443), "a.test");
    assert_eq!(https_lookup_name("a.test", 8443), "_8443._https.a.test");
}

#[test]
fn inline_lists_are_base64_with_space_around() {
    assert_eq!(decode_ech_b64(" aGVsbG8gd29ybGR+Cg== \n").unwrap(), b"hello world~\n");
    match decode_ech_b64("not base64!").unwrap_err() {
        EchError::Base64(why) => assert!(!why.is_empty()),
        other => panic!("unexpected {other:?}"),
    }
}

#[test]
fn the_first_published_list_counts() {
    let records = vec![
        HttpsRecord { ttl: 1, ech: Vec::new() },
        HttpsRecord { ttl: 30, ech: vec![vec![1], vec![2]] },
        HttpsRecord { ttl: 60, ech: vec![vec![3]] },
    ];
    assert_eq!(first_ech(&records), Some((vec![1], Duration::from_secs(30))));
    assert_eq!(first_ech(&Vec::new()), None);
}

#[test]
fn each_source_yields_its_list() {
    let ok = published(vec![1]);
    let empty: Result<Vec<HttpsRecord>, String> = Ok(Vec::new());
    let failed: Result<Vec<HttpsRecord>, String> = Err("refused".to_string());

    let doh = settings(EchMode::Doh, Some("AQID"));
    assert_eq!(acquire_config_list(&doh, "n", &ok).unwrap(), (Some(vec![1]), Some(Duration::from_secs(60))));
    assert_eq!(acquire_config_list(&doh, "n", &empty).unwrap(), (None, None));
    match acquire_config_list(&doh, "n", &failed).unwrap_err() {
        EchError::Lookup { name, reason } => assert_eq!((name.as_str(), reason.as_str()), ("n", "refused")),
        other => panic!("unexpected {other:?}"),
    }

    let both = settings(EchMode::DohWithFallback, Some("AQID"));
    assert_eq!(acquire_config_list(&both, "n", &ok).unwrap().0, Some(vec![1]));
    assert_eq!(acquire_config_list(&both, "n", &empty).unwrap(), (Some(vec![1, 2, 3]), None));
    assert_eq!(acquire_config_list(&both, "n", &failed).unwrap(), (Some(vec![1, 2, 3]), None));

    let inline = settings(EchMode::Static, Some("AQID"));
    assert_eq!(acquire_config_list(&inline, "n", &ok).unwrap(), (Some(vec![1, 2, 3]), None));
    let nothing = settings(EchMode::Static, None);
    assert!(matches!(acquire_config_list(&nothing, "n", &ok).unwrap_err(), EchError::NoCompatibleConfig));
}

#[test]
fn resolvers_say_which_mode_lacks_a_configuration() {
    let empty: Result<Vec<HttpsRecord>, String> = Ok(Vec::new());
    let failed: Result<Vec<HttpsRecord>, String> = Err("refused".to_string());
    assert_eq!(
        acquire_resolver_ech(&settings(EchMode::Static, None), &empty).unwrap_err(),
        "static ECH mode needs a config"
    );
    assert_eq!(
        acquire_resolver_ech(&settings(EchMode::DohWithFallback, None), &failed).unwrap_err(),
        "doh-with-fallback needs a config"
    );
    assert_eq!(acquire_resolver_ech(&settings(EchMode::Doh, None), &empty).unwrap(), None);
    assert_eq!(acquire_resolver_ech(&settings(EchMode::Doh, None), &failed).unwrap_err(), "refused");
    assert_eq!(acquire_resolver_ech(&settings(EchMode::Static, Some("AQID")), &empty).unwrap(), Some(vec![1, 2, 3]));
    assert!(acquire_resolver_ech(&settings(EchMode::Static, Some("*")), &empty).is_err());
}

#[test]
fn a_list_is_used_as_long_as_its_record_lives() {
    let bound = Duration::from_secs(60);
    assert_eq!(refresh_after(Some(Duration::from_secs(20)), bound), Duration::from_secs(20));
    assert_eq!(refresh_after(Some(Duration::from_secs(600)), bound), bound);
    assert_eq!(refresh_after(Some(Duration::from_secs(1)), bound), Duration::from_secs(5));
    assert_eq!(refresh_after(None, bound), bound);
}

#[test]
fn resolver_configurations_follow_their_mode() {
    let roots = Arc::new(RootCertStore::empty());
    let plain = resolver_client_config(ResolverEch::Disabled, false, &roots).unwrap();
    assert!(!plain.enable_sni);
    assert!(resolver_client_config(ResolverEch::Grease, true, &roots).unwrap().enable_sni);
    let list = usable_list();
    assert!(resolver_client_config(ResolverEch::Config(&list), true, &roots).is_ok());
    let err = resolver_client_config(ResolverEch::Config(&[1, 2, 3]), true, &roots).unwrap_err();
    assert!(matches!(err, EchError::NoCompatibleConfig));
}

#[test]
fn a_placeholder_is_taken_as_it_was_made() {
    let made = EchGreaseConfig::new(DH_KEM_X25519_HKDF_SHA256_AES_128, HpkePublicKey(vec![9; 32]));
    match placeholder_mode(Ok(made.clone())) {
        Ok(Mode::Grease(config)) => assert_eq!(format!("{config:?}"), format!("{made:?}")),
        other => panic!("unexpected {other:?}"),
    }
    let err = placeholder_mode(Err("no randomness".into())).unwrap_err();
    assert!(matches!(err, EchError::Rustls(reason) if reason == "no randomness"));
}

#[test]
fn placeholders_have_keys_of_their_own() {
    let (a, b) = (grease_mode().unwrap(), grease_mode().unwrap());
    assert!(matches!((&a, &b), (Mode::Grease(_), Mode::Grease(_))));
    assert_ne!(format!("{a:?}"), format!("{b:?}"));
}

#[test]
fn a_configuration_is_made_once_for_each_offer() {
    let mut p = provider(EchMode::Doh, None, true);
    let h1 = vec![b"http/1.1".to_vec()];
    let h2 = vec![b"h2".to_vec()];
    match p.client("inner.test", &h1, at(0)) {
        Step::Acquire(name) => assert_eq!(name.as_deref(), Some("inner.test")),
        other => panic!("unexpected {other:?}"),
    }
    let first = p.on_acquired("inner.test", &h1, at(0), &published(usable_list())).unwrap();
    assert_eq!(first.client_config.alpn_protocols, h1);
    let Step::Serve(again) = p.client("inner.test", &h1, at(1)) else {
        panic!("a fresh entry answers");
    };
    assert!(Arc::ptr_eq(&first.client_config, &again.client_config));
    let Step::Serve(other) = p.client("inner.test", &h2, at(1)) else {
        panic!("a fresh entry answers");
    };
    assert_eq!(other.client_config.alpn_protocols, h2);
    assert_eq!(other.generation, first.generation);
    assert!(matches!(p.client("inner.test", &h1, at(60)), Step::Acquire(_)));
}

#[test]
fn a_stale_rejection_cannot_evict_a_newer_generation() {
    let mut p = provider(EchMode::Doh, None, true);
    let none: Vec<Vec<u8>> = Vec::new();
    let first = p.on_acquired("inner.test", &none, at(0), &published(usable_list())).unwrap();
    let second = p.on_acquired("inner.test", &none, at(60), &published(usable_list())).unwrap();
    assert_eq!((first.generation, second.generation), (1, 2));

    assert!(!p.invalidate_after_rejection("inner.test", 1));
    assert!(matches!(p.client("inner.test", &none, at(61)), Step::Serve(c) if c.generation == 2));

    assert!(p.invalidate_after_rejection("inner.test", 2));
    assert!(matches!(p.client("inner.test", &none, at(61)), Step::Acquire(_)));
}

#[test]
fn concurrent_rejections_grant_one_refresh_for_a_generation() {
    let mut p = provider(EchMode::Doh, None, true);
    let none: Vec<Vec<u8>> = Vec::new();
    let c = p.on_acquired("inner.test", &none, at(0), &published(usable_list())).unwrap();
    p.on_acquired("other.test", &none, at(0), &published(usable_list())).unwrap();
    let granted = (0..16).filter(|_| p.invalidate_after_rejection("inner.test", c.generation)).count();
    assert_eq!(granted, 1);
    assert!(matches!(p.client("other.test", &none, at(1)), Step::Serve(_)));
}

#[test]
fn a_failed_refresh_keeps_the_entry_for_a_while() {
    let mut p = provider(EchMode::Doh, None, true);
    let none: Vec<Vec<u8>> = Vec::new();
    let failed: Result<Vec<HttpsRecord>, String> = Err("refused".to_string());
    assert!(matches!(p.on_acquired("inner.test", &none, at(0), &failed), Err(EchError::Lookup { .. })));
    let c = p.on_acquired("inner.test", &none, at(0), &published(usable_list())).unwrap();
    let kept = p.on_acquired("inner.test", &none, at(100), &failed).unwrap();
    assert_eq!(kept.generation, c.generation);
    assert!(matches!(p.client("inner.test", &none, at(129)), Step::Serve(_)));
    assert!(matches!(p.client("inner.test", &none, at(130)), Step::Acquire(_)));
}

#[test]
fn nothing_published_is_an_error_or_a_placeholder() {
    let none: Vec<Vec<u8>> = Vec::new();
    let empty: Result<Vec<HttpsRecord>, String> = Ok(Vec::new());
    let mut strict = provider(EchMode::Doh, None, true);
    match strict.on_acquired("inner.test", &none, at(0), &empty).unwrap_err() {
        EchError::NoRecord(name) => assert_eq!(name, "inner.test"),
        other => panic!("unexpected {other:?}"),
    }
    assert!(matches!(
        strict.on_acquired("inner.test", &none, at(0), &published(vec![1, 2, 3])),
        Err(EchError::NoCompatibleConfig)
    ));
    let mut lax = provider(EchMode::Doh, None, false);
    assert!(lax.on_acquired("inner.test", &none, at(0), &empty).is_ok());
}

#[test]
fn a_rejection_bypasses_the_cached_https_record() {
    let mut p = provider(EchMode::Doh, None, true);
    p.settings.ech_domain = Some("ech.test".to_string());
    assert_eq!(p.lookup_to_forget("inner.test").as_deref(), Some("ech.test"));
    assert_eq!(p.lookup_name("inner.test"), "ech.test");
    let inline = provider(EchMode::Static, Some("AQID"), true);
    assert_eq!(inline.lookup_to_forget("inner.test"), None);
}
