use pinenote_service::text::{parse_i32, parse_u8};
use pinenote_service::types::rockchip_ebc::{
    DclkSelect, DitheringMethod, Error, Hint, HintBitDepth, HintConvertMode,
};

fn all_hints() -> Vec<(HintBitDepth, HintConvertMode, bool)> {
    let mut out = Vec::new();
    for depth in [HintBitDepth::Y1, HintBitDepth::Y2, HintBitDepth::Y4] {
        for convert in [HintConvertMode::Threshold, HintConvertMode::Dither] {
            for redraw in [false, true] {
                out.push((depth, convert, redraw));
            }
        }
    }
    out
}

#[test]
fn hint_keeps_its_parts() {
    let combos = all_hints();
    assert_eq!(12, combos.len());
    for (depth, convert, redraw) in combos {
        let hint = Hint::new(depth, convert, redraw);
        assert_eq!(depth, hint.bit_depth());
        assert_eq!(convert, hint.convert_mode());
        assert_eq!(redraw, hint.redraw());
    }
}

#[test]
fn hint_packs_bits_four_to_seven() {
    assert_eq!(0x00, Hint::new(HintBitDepth::Y1, HintConvertMode::Threshold, false).repr());
    assert_eq!(0x10, Hint::new(HintBitDepth::Y2, HintConvertMode::Threshold, false).repr());
    assert_eq!(0x20, Hint::new(HintBitDepth::Y4, HintConvertMode::Threshold, false).repr());
    assert_eq!(0x40, Hint::new(HintBitDepth::Y1, HintConvertMode::Dither, false).repr());
    assert_eq!(0x80, Hint::new(HintBitDepth::Y1, HintConvertMode::Threshold, true).repr());
    assert_eq!(0xe0, Hint::new(HintBitDepth::Y4, HintConvertMode::Dither, true).repr());
    assert_eq!(0xe0u8, u8::from(Hint::new(HintBitDepth::Y4, HintConvertMode::Dither, true)));
}

#[test]
fn parse_full_form() {
    assert_eq!(
        Ok(Hint::new(HintBitDepth::Y4, HintConvertMode::Dither, true)),
        Hint::try_from_human_readable("Y4|D|R")
    );
}

#[test]
fn parse_defaults_to_threshold_without_redraw() {
    assert_eq!(
        Ok(Hint::new(HintBitDepth::Y2, HintConvertMode::Threshold, false)),
        Hint::try_from_human_readable("Y2")
    );
    assert_eq!(
        Ok(Hint::new(HintBitDepth::Y1, HintConvertMode::Threshold, true)),
        Hint::try_from_human_readable("Y1|R")
    );
    assert_eq!(
        Ok(Hint::new(HintBitDepth::Y1, HintConvertMode::Dither, false)),
        Hint::try_from_human_readable("Y1|D|r")
    );
}

#[test]
fn parse_rejects_missing_depth_and_unknown_words() {
    assert_eq!(Err(Error::Invalid), Hint::try_from_human_readable(""));
    assert_eq!(Err(Error::Invalid), Hint::try_from_human_readable("D|R"));
    assert_eq!(Err(Error::Invalid), Hint::try_from_human_readable("Y3"));
    assert_eq!(Err(Error::Invalid), Hint::try_from_human_readable("Y4|X"));
    assert_eq!(Err(Error::Invalid), Hint::try_from_human_readable("Y4|"));
    assert_eq!(Err(Error::Invalid), Hint::try_from_human_readable("Y4||R"));
    assert_eq!(Err(Error::Invalid), Hint::try_from_human_readable("y4"));
    assert_eq!(Err(Error::Invalid), Hint::try_from_human_readable("Y4|Dither"));
}

#[test]
fn format_writes_three_words() {
    assert_eq!(
        "Y4|D|R",
        Hint::new(HintBitDepth::Y4, HintConvertMode::Dither, true).to_human_readable()
    );
    assert_eq!(
        "Y1|T|r",
        Hint::new(HintBitDepth::Y1, HintConvertMode::Threshold, false).to_human_readable()
    );
    assert_eq!(
        "Y2|D|r",
        Hint::new(HintBitDepth::Y2, HintConvertMode::Dither, false).to_human_readable()
    );
}

#[test]
fn format_then_parse_gives_the_hint_back() {
    for (depth, convert, redraw) in all_hints() {
        let hint = Hint::new(depth, convert, redraw);
        let text = hint.to_human_readable();
        assert_eq!(Ok(hint), Hint::try_from_human_readable(&text));
    }
}

#[test]
fn hint_from_decimal_text() {
    assert_eq!(
        Ok(Hint::new(HintBitDepth::Y4, HintConvertMode::Dither, true)),
        Hint::from_str("224")
    );
    assert_eq!(
        Ok(Hint::new(HintBitDepth::Y1, HintConvertMode::Threshold, false)),
        Hint::from_str("0")
    );
    assert_eq!(
        Ok(Hint::new(HintBitDepth::Y2, HintConvertMode::Threshold, false)),
        "16".parse::<Hint>()
    );
}

#[test]
fn hint_from_decimal_text_errors() {
    assert_eq!(Err(Error::Parse), Hint::from_str(""));
    assert_eq!(Err(Error::Parse), Hint::from_str("abc"));
    assert_eq!(Err(Error::Parse), Hint::from_str("256"));
    assert_eq!(Err(Error::Parse), Hint::from_str("-1"));
    assert_eq!(Err(Error::Parse), Hint::from_str("32\n"));
    assert_eq!(Err(Error::Invalid), Hint::from_str("1"));
    assert_eq!(Err(Error::Invalid), Hint::from_str("33"));
    assert_eq!(Err(Error::BitDepth(3)), Hint::from_str("48"));
    assert_eq!(Err(Error::BitDepth(3)), Hint::from_str("240"));
}

#[test]
fn try_from_part_names_the_bad_number() {
    assert_eq!(
        Ok(Hint::new(HintBitDepth::Y4, HintConvertMode::Dither, false)),
        Hint::try_from_part(2, 1, false)
    );
    assert_eq!(Err(Error::BitDepth(3)), Hint::try_from_part(3, 0, false));
    assert_eq!(Err(Error::ConvertMode(2)), Hint::try_from_part(0, 2, true));
    assert_eq!(Err(Error::BitDepth(7)), Hint::try_from_part(7, 9, true));
}

#[test]
fn primitive_numbers() {
    assert_eq!(Ok(HintBitDepth::Y1), HintBitDepth::try_from_primitive(0));
    assert_eq!(Ok(HintBitDepth::Y4), HintBitDepth::try_from_primitive(2));
    assert_eq!(Err(Error::BitDepth(3)), HintBitDepth::try_from_primitive(3));
    assert_eq!(1, HintBitDepth::Y2.code());
    assert_eq!(Ok(HintConvertMode::Dither), HintConvertMode::try_from_primitive(1));
    assert_eq!(Err(Error::ConvertMode(2)), HintConvertMode::try_from_primitive(2));
    assert_eq!(0, HintConvertMode::Threshold.code());
}

#[test]
fn dithering_method_from_text() {
    assert_eq!(Ok(DitheringMethod::Bayer), DitheringMethod::from_str("0"));
    assert_eq!(Ok(DitheringMethod::BlueNoise16), DitheringMethod::from_str("1"));
    assert_eq!(Ok(DitheringMethod::BlueNoise32), "2".parse::<DitheringMethod>());
    assert_eq!(Err(Error::Method(3)), DitheringMethod::from_str("3"));
    assert_eq!(Err(Error::Parse), DitheringMethod::from_str("two"));
    assert_eq!(2, DitheringMethod::BlueNoise32.code());
}

#[test]
fn dclk_select_from_text() {
    assert_eq!(Ok(DclkSelect::Mode), DclkSelect::from_str("-1"));
    assert_eq!(Ok(DclkSelect::Mhz200), DclkSelect::from_str("0"));
    assert_eq!(Ok(DclkSelect::Mhz250), "+1".parse::<DclkSelect>());
    assert_eq!(Err(Error::DclkSelect(2)), DclkSelect::from_str("2"));
    assert_eq!(Err(Error::DclkSelect(-2)), DclkSelect::from_str("-2"));
    assert_eq!(Err(Error::Parse), DclkSelect::from_str("2147483648"));
    assert_eq!(Err(Error::Parse), DclkSelect::from_str("-"));
    assert_eq!(-1, DclkSelect::Mode.code());
}

#[test]
fn decimal_numbers() {
    assert_eq!(Some(5), parse_u8("+5"));
    assert_eq!(Some(7), parse_u8("007"));
    assert_eq!(Some(255), parse_u8("255"));
    assert_eq!(None, parse_u8("256"));
    assert_eq!(None, parse_u8("-0"));
    assert_eq!(Some(0), parse_i32("-0"));
    assert_eq!(Some(-10), parse_i32("-10"));
    assert_eq!(Some(i32::MIN), parse_i32("-2147483648"));
    assert_eq!(None, parse_i32("-2147483649"));
    assert_eq!(Some(i32::MAX), parse_i32("2147483647"));
    assert_eq!(None, parse_i32("2147483648"));
    assert_eq!(None, parse_u8("+"));
    assert_eq!(None, parse_u8(""));
    assert_eq!(None, parse_u8("1 "));
    assert_eq!(None, parse_i32("--1"));
    assert_eq!(None, parse_u8("0000000000000000000000256"));
    assert_eq!(Some(1), parse_u8("0000000000000000000000001"));
}
