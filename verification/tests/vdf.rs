use starkeeper::vdf::{asset_urls, parse_urls, pick_asset, vdf_obj, vdf_str, VdfEntry, VdfObj, VdfValue, CDN_BASE};

const APP_INFO: &str = r#""appinfo"
{
	"appid"		"440"
	"common"
	{
		"name"		"Team Fortress 2"
		"library_assets"
		{
			"library_capsule"
			{
				"image"
				{
					"english"		"old_capsule_600x900.jpg"
				}
			}
		}
		"library_assets_full"
		{
			"library_capsule"
			{
				"image"
				{
					"english"		"library_600x900.jpg"
					"french"		"library_600x900_french.jpg"
				}
			}
			"library_hero"
			{
				"image"
				{
					"german"		"library_hero_german.jpg"
					"brazilian"		"library_hero_brazilian.jpg"
				}
			}
			"library_logo"
			{
				"image"
				{
					"english"		"logo.png"
				}
			}
		}
	}
}
"#;

fn s(x: &str) -> String {
    x.to_string()
}

fn obj(entries: Vec<(&str, Vec<VdfValue>)>) -> VdfObj {
    VdfObj { entries: entries.into_iter().map(|(k, values)| VdfEntry { key: s(k), values }).collect() }
}

#[test]
fn parse_urls_reads_full_assets() {
    let (capsule, hero, logo) = parse_urls(440, APP_INFO.as_bytes()).unwrap();
    assert_eq!(capsule.as_deref(), Some("https://steamcdn-a.akamaihd.net/steam/apps/440/library_600x900.jpg"));
    // no english hero: the first string in key order ("brazilian") is taken
    assert_eq!(hero.as_deref(), Some("https://steamcdn-a.akamaihd.net/steam/apps/440/library_hero_brazilian.jpg"));
    // "logo.png" is shorter than ten bytes
    assert_eq!(logo, None);
}

#[test]
fn parse_urls_falls_back_to_library_assets() {
    let text = r#""appinfo" { "common" { "library_assets" { "library_logo" { "image" { "english" "some_logo_file.png" } } } } }"#;
    let (capsule, hero, logo) = parse_urls(70, text.as_bytes()).unwrap();
    assert_eq!(capsule, None);
    assert_eq!(hero, None);
    assert_eq!(logo.as_deref(), Some("https://steamcdn-a.akamaihd.net/steam/apps/70/some_logo_file.png"));
}

#[test]
fn parse_urls_empty_and_padded() {
    assert_eq!(parse_urls(1, b""), Ok((None, None, None)));
    assert_eq!(parse_urls(1, b" \n\0\0\0"), Ok((None, None, None)));
    let mut padded = APP_INFO.as_bytes().to_vec();
    padded.extend_from_slice(&[0, 0, 0]);
    assert_eq!(parse_urls(440, &padded), parse_urls(440, APP_INFO.as_bytes()));
}

#[test]
fn parse_urls_without_assets() {
    assert_eq!(parse_urls(5, br#""appinfo" { "common" { "name" "x" } }"#), Ok((None, None, None)));
    assert_eq!(parse_urls(5, br#""appinfo" "just a string""#), Ok((None, None, None)));
}

#[test]
fn parse_urls_invalid_utf8() {
    let err = parse_urls(1, &[0x66, 0xff, 0x66]).unwrap_err();
    assert_eq!(err, std::str::from_utf8(&[0x66, 0xff, 0x66]).unwrap_err().to_string());
    assert!(err.starts_with("invalid utf-8"));
}

#[test]
fn parse_urls_invalid_vdf() {
    let err = parse_urls(1, b"\"appinfo\" {").unwrap_err();
    assert!(err.starts_with("Failed parsing input Error:"), "{err}");
}

#[test]
fn lookups_take_first_value() {
    let inner = obj(vec![("english", vec![VdfValue::Str(s("abc"))])]);
    let o = obj(vec![
        ("a", vec![VdfValue::Obj(inner), VdfValue::Str(s("second"))]),
        ("b", vec![VdfValue::Str(s("text"))]),
        ("c", vec![]),
    ]);
    assert!(vdf_obj(&o, "a").is_some());
    assert_eq!(vdf_str(&o, "a"), None);
    assert!(vdf_obj(&o, "b").is_none());
    assert_eq!(vdf_str(&o, "b").as_deref(), Some("text"));
    assert!(vdf_obj(&o, "c").is_none());
    assert_eq!(vdf_str(&o, "c"), None);
    assert!(vdf_obj(&o, "zzz").is_none());
}

#[test]
fn pick_asset_measures_hash_in_bytes() {
    // nine characters but ten bytes
    let image = obj(vec![("english", vec![VdfValue::Str(s("ééééééééé"))])]);
    let node = obj(vec![("image", vec![VdfValue::Obj(image)])]);
    let assets = obj(vec![("library_hero", vec![VdfValue::Obj(node)])]);
    assert_eq!(
        pick_asset(9, &assets, "library_hero").as_deref(),
        Some("https://steamcdn-a.akamaihd.net/steam/apps/9/ééééééééé")
    );
    let short = obj(vec![("english", vec![VdfValue::Str(s("123456789"))])]);
    let node = obj(vec![("image", vec![VdfValue::Obj(short)])]);
    let assets = obj(vec![("library_hero", vec![VdfValue::Obj(node)])]);
    assert_eq!(pick_asset(9, &assets, "library_hero"), None);
}

#[test]
fn asset_urls_needs_object_root() {
    assert_eq!(asset_urls(1, &VdfValue::Str(s("x"))), (None, None, None));
    assert_eq!(CDN_BASE, "https://steamcdn-a.akamaihd.net/steam/apps");
}

#[test]
fn trailing_nul_changes_nothing() {
    for t in ["", APP_INFO.trim(), r#""appinfo" { "common" { "name" "x" } }"#, "\"a\" {"] {
        let with_nul = format!("{t}\0");
        assert_eq!(parse_urls(3, with_nul.as_bytes()), parse_urls(3, t.as_bytes()), "{t:?}");
    }
}
