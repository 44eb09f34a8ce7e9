use atemporal::guide::{escape, rules_build};
use atemporal::identity::sha256;
use atemporal::missiles::{validate_silo_plan, SiloCapability};
use atemporal::types::{MissileLaunch, SiloPlan, Tile};

#[test]
fn escape_replaces_the_five_markup_characters() {
    assert_eq!(escape("a<b>&\"c'"), "a&lt;b&gt;&amp;&quot;c&#39;");
    assert_eq!(escape("plain text"), "plain text");
    assert_eq!(escape("&amp;"), "&amp;amp;");
    assert_eq!(escape(""), "");
    assert_eq!(escape("≈ ok"), "≈ ok");
}

#[test]
fn rules_build_hashes_the_tagged_prose() {
    let prose = "<p>Win by surviving.</p>";
    let expected = sha256(format!("atemporal-guide-renderer-v3\n{prose}").as_bytes());
    assert_eq!(rules_build(prose), expected);
    assert_ne!(rules_build(prose), sha256(prose.as_bytes()));
    assert_eq!(rules_build("").len(), 64);
}

fn silo() -> SiloCapability {
    SiloCapability { silo: true, recipes: Some(vec!["nuke".to_string(), "emp".to_string()]) }
}

fn launch(key: &str, x: u16, y: u16) -> MissileLaunch {
    MissileLaunch { type_key: key.to_string(), target: Tile { x, y } }
}

#[test]
fn silo_plans_need_a_producing_silo_known_missiles_and_targets_on_the_map() {
    let plan = SiloPlan { automatic: false, launches: vec![launch("nuke", 3, 4), launch("emp", 63, 63)] };
    assert!(validate_silo_plan(&silo(), &plan, 64, 64).is_ok());
    assert!(validate_silo_plan(&silo(), &plan, 63, 64).is_err());
    let unknown = SiloPlan { automatic: true, launches: vec![launch("rock", 1, 1)] };
    assert!(validate_silo_plan(&silo(), &unknown, 64, 64).is_err());
    let factory = SiloCapability { silo: false, recipes: Some(vec!["nuke".to_string()]) };
    assert!(validate_silo_plan(&factory, &plan, 64, 64).is_err());
    let bare = SiloCapability { silo: true, recipes: None };
    assert!(validate_silo_plan(&bare, &SiloPlan { automatic: true, launches: vec![] }, 64, 64).is_err());
    let many = SiloPlan { automatic: false, launches: (0..65537).map(|_| launch("emp", 0, 0)).collect() };
    assert!(validate_silo_plan(&silo(), &many, 64, 64).is_err());
    let max = SiloPlan { automatic: false, launches: (0..65536).map(|_| launch("emp", 0, 0)).collect() };
    assert!(validate_silo_plan(&silo(), &max, 64, 64).is_ok());
}
