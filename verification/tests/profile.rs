use zerotick::mojang::profile::{
    decode_texture_properties, profile_from, profile_url, select_textures, strip_dashes,
    ProfileProperty,
};

#[test]
fn uuid_without_dashes() {
    let s: String = strip_dashes("069a79f4-44e9-4726-a5be-fca90e38aaf5").into_iter().collect();
    assert_eq!(s, "069a79f444e94726a5befca90e38aaf5");
}

#[test]
fn profile_url_built() {
    assert_eq!(
        profile_url("069a79f4-44e9-4726-a5be-fca90e38aaf5"),
        "https://sessionserver.mojang.com/session/minecraft/profile/069a79f444e94726a5befca90e38aaf5"
    );
}

fn prop(name: &str, value: &str) -> ProfileProperty {
    ProfileProperty { name: name.to_string(), value: value.to_string() }
}

#[test]
fn decodes_only_valid_texture_properties() {
    let props = vec![
        prop("textures", "eyJ0ZXh0dXJlcyI6e319"),
        prop("other", "AAAA"),
        prop("textures", "!!!"),
    ];
    let out = decode_texture_properties(&props);
    assert_eq!(out, vec![b"{\"textures\":{}}".to_vec()]);
}

#[test]
fn last_parsed_payload_wins() {
    let parsed = vec![
        Some((Some("skin-a".to_string()), None)),
        Some((Some("skin-b".to_string()), Some("cape-b".to_string()))),
        None,
    ];
    let (skin, cape) = select_textures(parsed);
    assert_eq!(skin, Some("skin-b".to_string()));
    assert_eq!(cape, Some("cape-b".to_string()));
    assert_eq!(select_textures(vec![None, None]), (None, None));
    let p = profile_from("Notch".to_string(), "069a".to_string(), (None, Some("c".to_string())));
    assert_eq!(p.name, "Notch");
    assert_eq!(p.uuid, "069a");
    assert_eq!(p.skin_url, None);
    assert_eq!(p.cape_url, Some("c".to_string()));
}
