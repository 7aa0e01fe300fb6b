use kicad2print::choices::{
    ChannelProfile, EyeletStyle, Mode, OutputFormat, StencilMount, ViaStyle,
};
use kicad2print::config::{
    compute_scale_factor, is_rescaled, Arguments, CliOverrides, Config, ConfigError,
};

fn mm(v: f64) -> i64 {
    (v * 1_000_000.0).round() as i64
}

/// Every setting, for comparing two configurations field by field.
fn as_table(c: &Config) -> String {
    format!("{c:?}")
}

#[test]
fn test_default_is_1x() {
    assert_eq!(compute_scale_factor(&Config::default()), mm(1.0));
}

#[test]
fn test_explicit_scale_honored() {
    let mut config = Config::default();
    config.scale_factor = mm(2.5);
    assert_eq!(compute_scale_factor(&config), mm(2.5));
}

#[test]
fn only_another_scale_is_a_rescaling() {
    assert!(!is_rescaled(mm(1.0)));
    assert!(is_rescaled(mm(2.5)));
}

#[test]
fn copper_wire_preset_equals_the_builtin_defaults() {
    let preset = Config::load(None, Some(Mode::CopperWire)).expect("loads");
    assert_eq!(as_table(&preset), as_table(&Config::default()));
}

#[test]
fn mode_flag_matches_its_preset_file_exactly() {
    for mode in [Mode::Electrolysis, Mode::CopperWire] {
        let from_flag = Config::load(None, Some(mode)).expect("mode preset loads");
        let from_file = Config::load(Some(mode.preset_toml()), None).expect("preset file loads");
        assert_eq!(
            as_table(&from_flag),
            as_table(&from_file),
            "--mode {} and its preset file must produce identical settings",
            mode.name()
        );
    }
}

#[test]
fn mode_preset_carries_the_geometry_settings_it_documents() {
    let c = Config::load(None, Some(Mode::Electrolysis)).expect("loads");
    assert_eq!(c.channel_width, mm(0.7));
    assert_eq!(c.channel_depth, mm(0.8));
    assert_eq!(c.substrate_thickness, mm(2.2));
    assert!(c.generate_stencil, "electrolysis needs the seeding stencil");
    assert_eq!(c.channel_profile, ChannelProfile::Trapezoid);
    assert_eq!(c.taper_slice_height, mm(0.12));
    assert_eq!(c.channel_floor_width, mm(0.4));
}

#[test]
fn copper_wire_is_the_default_mode() {
    let c = Config::load(None, None).expect("loads");
    assert_eq!(c.mode, Mode::CopperWire);
    assert_eq!(c.channel_width, mm(1.2), "wire mode keeps the wide groove");
    assert_eq!(c.channel_profile, ChannelProfile::Rect, "wire seats flat");
}

#[test]
fn a_user_file_overrides_the_mode_preset() {
    let c = Config::load(Some("channel_width_mm = 0.35\n"), Some(Mode::Electrolysis)).expect("loads");
    assert_eq!(c.channel_width, mm(0.35), "user file wins over the preset");
    assert_eq!(c.channel_depth, mm(0.8), "untouched keys still come from the preset");
    assert_eq!(c.mode, Mode::Electrolysis, "--mode still selects the mode");
}

#[test]
fn setting_a_key_to_its_default_value_still_overrides_the_preset() {
    let c = Config::load(Some("channel_width_mm = 1.2\n"), Some(Mode::Electrolysis)).expect("loads");
    assert_eq!(
        c.channel_width,
        mm(1.2),
        "explicitly asking for the default value must not be mistaken for silence"
    );
}

#[test]
fn cli_flags_beat_both_the_file_and_the_preset() {
    let mut c = Config::load(None, Some(Mode::Electrolysis)).expect("loads");
    c.merge_cli_overrides(&CliOverrides { channel_width: Some(mm(0.9)), ..Default::default() });
    assert_eq!(c.channel_width, mm(0.9));
    assert_eq!(c.channel_depth, mm(0.8), "other preset values survive");
}

#[test]
fn a_mode_named_in_the_file_selects_its_preset() {
    let c = Config::load(Some("mode = \"electrolysis\"\nbus_tie_count = 3\n"), None).unwrap();
    assert_eq!(c.mode, Mode::Electrolysis);
    assert_eq!(c.channel_width, mm(0.7));
    assert_eq!(c.bus_tie_count, 3);
    let c = Config::load(Some("mode = \"electrolysis\"\n"), Some(Mode::CopperWire)).unwrap();
    assert_eq!(c.mode, Mode::CopperWire, "the command line has the last word");
}

#[test]
fn settings_of_the_wrong_kind_are_refused() {
    assert_eq!(Config::load(Some("channel_width_mm ="), None).unwrap_err(), ConfigError::InvalidToml);
    assert_eq!(
        Config::load(Some("channel_width_mm = \"wide\""), None).unwrap_err(),
        ConfigError::WrongKind
    );
    assert_eq!(
        Config::load(Some("generate_stencil = 1"), None).unwrap_err(),
        ConfigError::WrongKind
    );
}

#[test]
fn whole_numbers_and_steps_are_read() {
    let text = "channel_width_mm = 2\noutput_dir = \"out\"\n[[assembly_steps]]\nname = \"Solder\"\ncomponents = [\"R1\", \"C2\"]\nwire_layer = \"F.Cu\"\ninstruction = \"Heat it.\"\n";
    let c = Config::load(Some(text), None).unwrap();
    assert_eq!(c.channel_width, mm(2.0));
    assert_eq!(c.output_dir, "out");
    assert_eq!(c.assembly_steps.len(), 1);
    let step = &c.assembly_steps[0];
    assert_eq!(step.name, "Solder");
    assert_eq!(step.components, vec!["R1".to_string(), "C2".to_string()]);
    assert_eq!(step.wire_layer.as_deref(), Some("F.Cu"));
    assert_eq!(step.instruction, "Heat it.");
}

#[test]
fn the_summary_shows_the_settings() {
    let text = Config::default().summary();
    assert!(text.starts_with("=== Configuration ===\nMode:                copper-wire\n"));
    assert!(text.contains("Channel width:       1.20 mm\n"));
    assert!(text.contains("Scale factor:        1.00x (true size)\n"));
    assert!(text.ends_with("Generate via indents: yes\n"), "{}", text);
    let scaled = Config { scale_factor: mm(2.5), generate_stencil: true, ..Config::default() };
    assert!(scaled.summary().contains("Scale factor:        2.50x (manual)\n"));
    assert!(scaled.summary().ends_with("Stencil mount:       ring\n"));
}

#[test]
fn names_are_taken_in_any_case() {
    assert_eq!(Mode::from_str("Electrolysis"), Ok(Mode::Electrolysis));
    assert_eq!(StencilMount::from_str("RING"), Ok(StencilMount::Ring));
    assert_eq!(ChannelProfile::from_str("Vee"), Ok(ChannelProfile::Vee));
    assert_eq!(ViaStyle::from_str("CONE"), Ok(ViaStyle::Cone));
    assert_eq!(EyeletStyle::from_str("Indent"), Ok(EyeletStyle::Indent));
    assert_eq!(OutputFormat::from_str("3MF"), Ok(OutputFormat::ThreeM));
    assert_eq!(
        OutputFormat::from_str("obj"),
        Err("Unknown format: 'obj'. Use 'stl', '3mf', or 'both'".to_string())
    );
}

#[test]
fn every_name_leads_back_to_its_choice() {
    for v in [Mode::CopperWire, Mode::Electrolysis] {
        assert_eq!(Mode::from_str(v.name()), Ok(v));
    }
    for v in [StencilMount::Lip, StencilMount::Ring] {
        assert_eq!(StencilMount::from_str(v.name()), Ok(v));
    }
    for v in [ChannelProfile::Rect, ChannelProfile::Trapezoid, ChannelProfile::Vee] {
        assert_eq!(ChannelProfile::from_str(v.name()), Ok(v));
    }
    for v in [ViaStyle::Straight, ViaStyle::Cone] {
        assert_eq!(ViaStyle::from_str(v.name()), Ok(v));
    }
    for v in [EyeletStyle::Hole, EyeletStyle::Indent] {
        assert_eq!(EyeletStyle::from_str(v.name()), Ok(v));
    }
    for v in [OutputFormat::Stl, OutputFormat::ThreeM, OutputFormat::Both] {
        assert_eq!(OutputFormat::from_str(v.name()), Ok(v));
    }
}

fn no_arguments() -> Arguments {
    Arguments {
        mode: None,
        channel_profile: None,
        via_style: None,
        eyelet_style: None,
        format: None,
        stencil_mount: None,
        channel_width: None,
        channel_depth: None,
        channel_floor_width: None,
        taper_slice_height: None,
        cone_angle: None,
        throat_height: None,
        min_rim: None,
        eyelet_diameter: None,
        indent_depth: None,
        pad_hole_diameter: None,
        substrate_thickness: None,
        scale: None,
        output_dir: None,
        no_pad_holes: false,
        no_pad_lands: false,
        no_via_indents: false,
        stencil: false,
        plating_bus: false,
    }
}

#[test]
fn arguments_become_overrides() {
    let o = no_arguments().to_overrides().unwrap();
    assert_eq!(format!("{o:?}"), format!("{:?}", CliOverrides::default()));
    let o = Arguments {
        mode: Some("electrolysis".into()),
        no_pad_holes: true,
        stencil: true,
        scale: Some(mm(2.0)),
        ..no_arguments()
    }
    .to_overrides()
    .unwrap();
    assert_eq!(o.mode, Some(Mode::Electrolysis));
    assert_eq!(o.generate_pad_holes, Some(false));
    assert_eq!(o.generate_stencil, Some(true));
    assert_eq!(o.generate_pad_lands, None);
    assert_eq!(o.scale_factor, Some(mm(2.0)));
}

#[test]
fn an_unknown_name_is_an_error_of_its_own() {
    let said = |a: Arguments| a.to_overrides().unwrap_err();
    assert_eq!(
        said(Arguments { mode: Some("x".into()), ..no_arguments() }),
        "Invalid mode: Unknown mode: 'x'. Use 'copper-wire' or 'electrolysis'"
    );
    assert_eq!(
        said(Arguments { stencil_mount: Some("x".into()), ..no_arguments() }),
        "Invalid stencil-mount: Unknown stencil mount: 'x'. Use 'lip' or 'ring'"
    );
    assert_eq!(
        said(Arguments { channel_profile: Some("x".into()), ..no_arguments() }),
        "Invalid channel-profile: Unknown channel profile: 'x'. Use 'rect', 'trapezoid', or 'vee'"
    );
    assert_eq!(
        said(Arguments { via_style: Some("x".into()), ..no_arguments() }),
        "Invalid via-style: Unknown via style: 'x'. Use 'straight' or 'cone'"
    );
    assert_eq!(
        said(Arguments { eyelet_style: Some("x".into()), ..no_arguments() }),
        "Invalid eyelet-style: Unknown eyelet style: 'x'. Use 'hole' or 'indent'"
    );
    assert_eq!(
        said(Arguments { format: Some("x".into()), ..no_arguments() }),
        "Invalid output format: Unknown format: 'x'. Use 'stl', '3mf', or 'both'"
    );
}

#[test]
fn a_settings_file_alone_does_not_bring_the_preset_of_its_mode() {
    let c = Config::from_file(Some("mode = \"electrolysis\"\nchannel_width_mm = 0.9\n"))
        .expect("loads");
    assert_eq!(c.mode, Mode::Electrolysis);
    assert_eq!(c.channel_width, mm(0.9));
    assert_eq!(c.channel_depth, Config::default().channel_depth);
    let none = Config::from_file(None).expect("loads");
    assert_eq!(as_table(&none), as_table(&Config::default()));
}

#[test]
fn a_bad_settings_file_is_refused() {
    assert!(matches!(Config::from_file(Some("mode = ")), Err(ConfigError::InvalidToml)));
    assert!(matches!(Config::from_file(Some("mode = \"wood\"\n")), Err(ConfigError::WrongKind)));
    assert!(matches!(
        Config::from_file(Some("channel_width_mm = \"wide\"\n")),
        Err(ConfigError::WrongKind)
    ));
}

#[test]
fn a_mode_gives_what_its_preset_gives() {
    for mode in [Mode::CopperWire, Mode::Electrolysis] {
        let by_flag = Config::load(None, Some(mode)).unwrap();
        let by_file = Config::load(Some(mode.preset_toml()), None).unwrap();
        let alone = Config::from_file(Some(mode.preset_toml())).unwrap();
        assert_eq!(format!("{by_flag:?}"), format!("{by_file:?}"));
        assert_eq!(format!("{by_flag:?}"), format!("{alone:?}"));
        assert_eq!(by_flag.mode, mode);
    }
    let built = format!("{:?}", Config::default());
    assert_eq!(format!("{:?}", Config::load(None, None).unwrap()), built);
    assert_eq!(format!("{:?}", Config::load(None, Some(Mode::CopperWire)).unwrap()), built);
}
