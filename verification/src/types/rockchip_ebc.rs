//! Rendering hints and the other parameters of the display driver.

use vstd::prelude::*;
use vstd::string::*;
use crate::text::{parse_i32, parse_u8, spec_parse_decimal, spec_split};
use super::rect::Rect;

verus! {

/// Number of grey levels that a region is rendered with.
#[derive(Clone, Copy, Debug, PartialEq, Eq, Structural)]
pub enum HintBitDepth {
    Y1,
    Y2,
    Y4,
}

/// How pixel values are brought down to the bit depth.
#[derive(Clone, Copy, Debug, PartialEq, Eq, Structural)]
pub enum HintConvertMode {
    Threshold,
    Dither,
}

/// Why a driver parameter could not be read.
#[derive(Clone, Copy, Debug, PartialEq, Eq, Structural)]
pub enum Error {
    /// The text is not a number of the expected size.
    Parse,
    /// The number names no bit depth.
    BitDepth(u8),
    /// The number names no convert mode.
    ConvertMode(u8),
    /// The number names no dithering method.
    Method(u8),
    /// The number names no clock selection.
    DclkSelect(i32),
    /// The value is malformed in another way.
    Invalid,
}

pub const BIT_DEPTH_SHIFT: u8 = 4;

pub const BIT_DEPTH_MASK: u8 = 0x30;

pub const CONVERT_SHIFT: u8 = 6;

pub const CONVERT_MASK: u8 = 0x40;

pub const REDRAW_SHIFT: u8 = 7;

pub const REDRAW_MASK: u8 = 0x80;

impl HintBitDepth {
    /// The number that the driver knows this bit depth by.
    pub open spec fn spec_code(self) -> u8 {
        match self {
            HintBitDepth::Y1 => 0,
            HintBitDepth::Y2 => 1,
            HintBitDepth::Y4 => 2,
        }
    }

    pub fn code(self) -> (r: u8)
        ensures
            r == self.spec_code(),
    {
        match self {
            HintBitDepth::Y1 => 0,
            HintBitDepth::Y2 => 1,
            HintBitDepth::Y4 => 2,
        }
    }

    /// The bit depth that the driver knows by `number`.
    pub fn try_from_primitive(number: u8) -> (r: Result<Self, Error>)
        ensures
            number > 2 ==> r == Err::<Self, Error>(Error::BitDepth(number)),
            number <= 2 ==> r is Ok && r.unwrap().spec_code() == number,
    {
        if number == 0 {
            Ok(HintBitDepth::Y1)
        } else if number == 1 {
            Ok(HintBitDepth::Y2)
        } else if number == 2 {
            Ok(HintBitDepth::Y4)
        } else {
            Err(Error::BitDepth(number))
        }
    }
}

impl HintConvertMode {
    /// The number that the driver knows this convert mode by.
    pub open spec fn spec_code(self) -> u8 {
        match self {
            HintConvertMode::Threshold => 0,
            HintConvertMode::Dither => 1,
        }
    }

    pub fn code(self) -> (r: u8)
        ensures
            r == self.spec_code(),
    {
        match self {
            HintConvertMode::Threshold => 0,
            HintConvertMode::Dither => 1,
        }
    }

    /// The convert mode that the driver knows by `number`.
    pub fn try_from_primitive(number: u8) -> (r: Result<Self, Error>)
        ensures
            number > 1 ==> r == Err::<Self, Error>(Error::ConvertMode(number)),
            number <= 1 ==> r is Ok && r.unwrap().spec_code() == number,
    {
        if number == 0 {
            Ok(HintConvertMode::Threshold)
        } else if number == 1 {
            Ok(HintConvertMode::Dither)
        } else {
            Err(Error::ConvertMode(number))
        }
    }
}

/// The byte that packs the three parts of a hint: the bit depth in bits 4
/// and 5, the convert mode in bit 6, the redraw flag in bit 7.
pub open spec fn spec_pack(bit_depth: HintBitDepth, convert_mode: HintConvertMode, redraw: bool) -> u8 {
    (bit_depth.spec_code() * 16 + convert_mode.spec_code() * 64 + if redraw {
        128int
    } else {
        0int
    }) as u8
}

/// The byte packs a hint: bits 0 to 3 are clear and bits 4 and 5 name a
/// bit depth.
pub open spec fn spec_valid_repr(repr: u8) -> bool {
    repr % 16 == 0 && (repr / 16) % 4 != 3
}

/// How the driver is to render a region: bit depth, convert mode and
/// whether the region is redrawn in two passes.
#[derive(Clone, Copy, Debug, PartialEq, Eq, Structural)]
pub struct Hint {
    repr: u8,
}

impl Hint {
    #[verifier::type_invariant]
    closed spec fn inv(self) -> bool {
        spec_valid_repr(self.repr)
    }

    /// The packed byte.
    pub closed spec fn spec_repr(self) -> u8 {
        self.repr
    }

    /// The hint with the given packed byte.
    pub closed spec fn from_repr(repr: u8) -> Hint {
        Hint { repr }
    }

    /// The hint with the given parts.
    pub open spec fn spec_new(
        bit_depth: HintBitDepth,
        convert_mode: HintConvertMode,
        redraw: bool,
    ) -> Hint {
        Hint::from_repr(spec_pack(bit_depth, convert_mode, redraw))
    }

    /// The packed byte is that of a hint. Every hint that the library hands
    /// out is valid.
    pub open spec fn valid(self) -> bool {
        spec_valid_repr(self.spec_repr())
    }

    pub open spec fn spec_bit_depth(self) -> HintBitDepth {
        let code = (self.spec_repr() / 16) % 4;
        if code == 0 {
            HintBitDepth::Y1
        } else if code == 1 {
            HintBitDepth::Y2
        } else {
            HintBitDepth::Y4
        }
    }

    pub open spec fn spec_convert_mode(self) -> HintConvertMode {
        if (self.spec_repr() / 64) % 2 == 0 {
            HintConvertMode::Threshold
        } else {
            HintConvertMode::Dither
        }
    }

    pub open spec fn spec_redraw(self) -> bool {
        self.spec_repr() / 128 != 0
    }

    /// A hint is its packed byte, and nothing else.
    pub broadcast proof fn lemma_repr(repr: u8)
        ensures
            (#[trigger] Hint::from_repr(repr)).spec_repr() == repr,
    {
    }

    /// Two hints with the same packed byte are the same hint.
    pub proof fn lemma_repr_injective(a: Hint, b: Hint)
        requires
            a.spec_repr() == b.spec_repr(),
        ensures
            a == b,
    {
    }

    /// A valid hint is made of its three parts.
    pub proof fn lemma_parts(self)
        requires
            self.valid(),
        ensures
            self == Hint::spec_new(self.spec_bit_depth(), self.spec_convert_mode(), self.spec_redraw()),
    {
        Hint::lemma_repr(spec_pack(self.spec_bit_depth(), self.spec_convert_mode(), self.spec_redraw()));
    }

    /// The parts of a hint are those that it was made of.
    pub proof fn lemma_new_parts(bit_depth: HintBitDepth, convert_mode: HintConvertMode, redraw: bool)
        ensures
            Hint::spec_new(bit_depth, convert_mode, redraw).valid(),
            Hint::spec_new(bit_depth, convert_mode, redraw).spec_bit_depth() == bit_depth,
            Hint::spec_new(bit_depth, convert_mode, redraw).spec_convert_mode() == convert_mode,
            Hint::spec_new(bit_depth, convert_mode, redraw).spec_redraw() == redraw,
    {
        Hint::lemma_repr(spec_pack(bit_depth, convert_mode, redraw));
    }

    pub fn new(bit_depth: HintBitDepth, convert_mode: HintConvertMode, redraw: bool) -> (r: Self)
        ensures
            r == Hint::spec_new(bit_depth, convert_mode, redraw),
            r.valid(),
            r.spec_bit_depth() == bit_depth,
            r.spec_convert_mode() == convert_mode,
            r.spec_redraw() == redraw,
    {
        let d: u8 = bit_depth.code();
        let c: u8 = convert_mode.code();
        let f: u8 = if redraw { 1 } else { 0 };
        let repr: u8 = (d << BIT_DEPTH_SHIFT) | (c << CONVERT_SHIFT) | (f << REDRAW_SHIFT);
        proof {
            assert(repr == d * 16 + c * 64 + f * 128) by (bit_vector)
                requires
                    repr == (d << 4u8) | (c << 6u8) | (f << 7u8),
                    d <= 2,
                    c <= 1,
                    f <= 1,
            ;
            Hint::lemma_new_parts(bit_depth, convert_mode, redraw);
        }
        Self { repr }
    }

    /// The hint with the given numbers for bit depth and convert mode.
    pub fn try_from_part(bit_depth: u8, convert_mode: u8, redraw: bool) -> (r: Result<Self, Error>)
        ensures
            bit_depth > 2 ==> r == Err::<Self, Error>(Error::BitDepth(bit_depth)),
            bit_depth <= 2 && convert_mode > 1 ==> r == Err::<Self, Error>(
                Error::ConvertMode(convert_mode),
            ),
            bit_depth <= 2 && convert_mode <= 1 ==> r is Ok && r.unwrap().valid() && r.unwrap().spec_repr()
                == bit_depth * 16 + convert_mode * 64 + if redraw {
                128int
            } else {
                0int
            },
    {
        let bit_depth = match HintBitDepth::try_from_primitive(bit_depth) {
            Ok(d) => d,
            Err(e) => {
                return Err(e);
            },
        };
        let convert_mode = match HintConvertMode::try_from_primitive(convert_mode) {
            Ok(c) => c,
            Err(e) => {
                return Err(e);
            },
        };
        proof {
            Hint::lemma_repr(spec_pack(bit_depth, convert_mode, redraw));
        }
        Ok(Self::new(bit_depth, convert_mode, redraw))
    }

    fn extract_bit_depth(repr: u8) -> (r: u8)
        ensures
            r == (repr / 16) % 4,
    {
        let r = (repr & BIT_DEPTH_MASK) >> BIT_DEPTH_SHIFT;
        proof {
            assert(r == (repr / 16) % 4) by (bit_vector)
                requires
                    r == (repr & 0x30u8) >> 4u8,
            ;
        }
        r
    }

    fn extract_convert_mode(repr: u8) -> (r: u8)
        ensures
            r == (repr / 64) % 2,
    {
        let r = (repr & CONVERT_MASK) >> CONVERT_SHIFT;
        proof {
            assert(r == (repr / 64) % 2) by (bit_vector)
                requires
                    r == (repr & 0x40u8) >> 6u8,
            ;
        }
        r
    }

    fn extract_redraw(repr: u8) -> (r: bool)
        ensures
            r == (repr / 128 != 0),
    {
        let redraw = (repr & REDRAW_MASK) >> REDRAW_SHIFT;
        proof {
            assert(redraw == repr / 128) by (bit_vector)
                requires
                    redraw == (repr & 0x80u8) >> 7u8,
            ;
        }
        redraw != 0
    }

    /// The packed byte, as the driver takes it.
    pub fn repr(&self) -> (r: u8)
        ensures
            r == self.spec_repr(),
            spec_valid_repr(r),
    {
        proof {
            use_type_invariant(self);
        }
        self.repr
    }

    pub fn bit_depth(&self) -> (r: HintBitDepth)
        ensures
            r == self.spec_bit_depth(),
    {
        let val = Self::extract_bit_depth(self.repr);
        if val == 0 {
            HintBitDepth::Y1
        } else if val == 1 {
            HintBitDepth::Y2
        } else {
            HintBitDepth::Y4
        }
    }

    pub fn convert_mode(&self) -> (r: HintConvertMode)
        ensures
            r == self.spec_convert_mode(),
    {
        let val = Self::extract_convert_mode(self.repr);
        if val == 0 {
            HintConvertMode::Threshold
        } else {
            HintConvertMode::Dither
        }
    }

    pub fn redraw(&self) -> (r: bool)
        ensures
            r == self.spec_redraw(),
    {
        Self::extract_redraw(self.repr)
    }
}


/// What the driver's decimal text for a hint stands for: the number must fit
/// a byte, leave bits 0 to 3 clear and name a bit depth.
pub open spec fn spec_hint_from_text(s: Seq<char>) -> Result<Hint, Error> {
    match spec_parse_decimal(s, 0, 255) {
        None => Err(Error::Parse),
        Some(v) => if v % 16 != 0 {
            Err(Error::Invalid)
        } else if (v / 16) % 4 == 3 {
            Err(Error::BitDepth(3))
        } else {
            Ok(Hint::from_repr(v as u8))
        },
    }
}

impl Hint {
    /// Reads a hint from the decimal text of its packed byte.
    pub fn from_str(s: &str) -> (r: Result<Self, Error>)
        ensures
            r == spec_hint_from_text(s@),
            r matches Ok(h) ==> h.valid(),
    {
        let repr: u8 = match parse_u8(s) {
            Some(v) => v,
            None => {
                return Err(Error::Parse);
            },
        };
        let mask: u8 = !(BIT_DEPTH_MASK | CONVERT_MASK | REDRAW_MASK);
        proof {
            assert(((repr & mask) != 0) == (repr % 16 != 0)) by (bit_vector)
                requires
                    mask == !(0x30u8 | 0x40u8 | 0x80u8),
            ;
        }
        if (repr & mask) != 0 {
            return Err(Error::Invalid);
        }
        let bit_depth = Self::extract_bit_depth(repr);
        let convert_mode = Self::extract_convert_mode(repr);
        let redraw = Self::extract_redraw(repr);
        let r = Self::try_from_part(bit_depth, convert_mode, redraw);
        proof {
            if bit_depth <= 2 {
                Hint::lemma_repr_injective(r.unwrap(), Hint::from_repr(repr));
            }
        }
        r
    }
}

impl core::str::FromStr for Hint {
    type Err = Error;

    fn from_str(s: &str) -> (r: Result<Self, Error>)
        ensures
            r == spec_hint_from_text(s@),
    {
        Hint::from_str(s)
    }
}

impl From<Hint> for u8 {
    fn from(value: Hint) -> (r: u8) {
        value.repr()
    }
}

impl vstd::std_specs::convert::FromSpecImpl<Hint> for u8 {
    open spec fn obeys_from_spec() -> bool {
        true
    }

    open spec fn from_spec(value: Hint) -> u8 {
        value.spec_repr()
    }
}


/// One word of a hint written for people.
#[derive(Clone, Copy, Debug, PartialEq, Eq, Structural)]
pub enum HintToken {
    Depth(HintBitDepth),
    Convert(HintConvertMode),
    Redraw(bool),
}

/// What the words read so far say of a hint.
#[derive(Clone, Copy, Debug, PartialEq, Eq, Structural)]
pub struct HintParts {
    pub depth: Option<HintBitDepth>,
    pub convert: HintConvertMode,
    pub redraw: bool,
}

/// The word that a piece of text stands for: `Y1`, `Y2`, `Y4` for the bit
/// depth, `T` or `D` for the convert mode, `R` or `r` for the redraw flag.
pub open spec fn spec_token(t: Seq<char>) -> Option<HintToken> {
    if t.len() == 1 {
        if t[0] == 'T' {
            Some(HintToken::Convert(HintConvertMode::Threshold))
        } else if t[0] == 'D' {
            Some(HintToken::Convert(HintConvertMode::Dither))
        } else if t[0] == 'R' {
            Some(HintToken::Redraw(true))
        } else if t[0] == 'r' {
            Some(HintToken::Redraw(false))
        } else {
            None
        }
    } else if t.len() == 2 && t[0] == 'Y' {
        if t[1] == '1' {
            Some(HintToken::Depth(HintBitDepth::Y1))
        } else if t[1] == '2' {
            Some(HintToken::Depth(HintBitDepth::Y2))
        } else if t[1] == '4' {
            Some(HintToken::Depth(HintBitDepth::Y4))
        } else {
            None
        }
    } else {
        None
    }
}

/// `parts` after one more word; `None` once a piece was no word.
pub open spec fn spec_apply_token(parts: Option<HintParts>, token: Option<HintToken>) -> Option<
    HintParts,
> {
    match (parts, token) {
        (Some(p), Some(HintToken::Depth(d))) => Some(HintParts { depth: Some(d), ..p }),
        (Some(p), Some(HintToken::Convert(c))) => Some(HintParts { convert: c, ..p }),
        (Some(p), Some(HintToken::Redraw(r))) => Some(HintParts { redraw: r, ..p }),
        _ => None,
    }
}

/// What a list of pieces says of a hint, read from left to right: a later
/// word overrides an earlier one of its kind, and one piece that is no word
/// spoils the whole. Threshold and no redraw hold until a word says
/// otherwise.
pub open spec fn spec_parts(tokens: Seq<Seq<char>>) -> Option<HintParts>
    decreases tokens.len(),
{
    if tokens.len() == 0 {
        Some(HintParts { depth: None, convert: HintConvertMode::Threshold, redraw: false })
    } else {
        spec_apply_token(spec_parts(tokens.drop_last()), spec_token(tokens.last()))
    }
}

/// The hint that the text `<depth>[|T|D][|R|r]` stands for. `None` when a
/// piece between two `|` is no word, or when no word gives the bit depth.
pub open spec fn spec_parse_human(s: Seq<char>) -> Option<Hint> {
    match spec_parts(spec_split(s, '|')) {
        Some(p) => match p.depth {
            Some(d) => Some(Hint::spec_new(d, p.convert, p.redraw)),
            None => None,
        },
        None => None,
    }
}

pub open spec fn spec_depth_text(d: HintBitDepth) -> Seq<char> {
    match d {
        HintBitDepth::Y1 => seq!['Y', '1'],
        HintBitDepth::Y2 => seq!['Y', '2'],
        HintBitDepth::Y4 => seq!['Y', '4'],
    }
}

pub open spec fn spec_convert_text(c: HintConvertMode) -> Seq<char> {
    match c {
        HintConvertMode::Threshold => seq!['T'],
        HintConvertMode::Dither => seq!['D'],
    }
}

pub open spec fn spec_redraw_text(r: bool) -> Seq<char> {
    if r {
        seq!['R']
    } else {
        seq!['r']
    }
}

/// A hint written for people: the three words, `|` between them.
pub open spec fn spec_format_human(
    bit_depth: HintBitDepth,
    convert_mode: HintConvertMode,
    redraw: bool,
) -> Seq<char> {
    spec_depth_text(bit_depth) + seq!['|'] + spec_convert_text(convert_mode) + seq!['|']
        + spec_redraw_text(redraw)
}

/// The word that the current piece stands for, from its length (counted up
/// to three) and its first two characters.
fn classify(len: usize, c0: char, c1: char, Ghost(t): Ghost<Seq<char>>) -> (r: Option<HintToken>)
    requires
        len == if t.len() < 3 { t.len() } else { 3 },
        len >= 1 ==> c0 == t[0],
        len >= 2 ==> c1 == t[1],
    ensures
        r == spec_token(t),
{
    if len == 1 {
        if c0 == 'T' {
            Some(HintToken::Convert(HintConvertMode::Threshold))
        } else if c0 == 'D' {
            Some(HintToken::Convert(HintConvertMode::Dither))
        } else if c0 == 'R' {
            Some(HintToken::Redraw(true))
        } else if c0 == 'r' {
            Some(HintToken::Redraw(false))
        } else {
            None
        }
    } else if len == 2 && c0 == 'Y' {
        if c1 == '1' {
            Some(HintToken::Depth(HintBitDepth::Y1))
        } else if c1 == '2' {
            Some(HintToken::Depth(HintBitDepth::Y2))
        } else if c1 == '4' {
            Some(HintToken::Depth(HintBitDepth::Y4))
        } else {
            None
        }
    } else {
        None
    }
}

fn apply_token(parts: Option<HintParts>, token: Option<HintToken>) -> (r: Option<HintParts>)
    ensures
        r == spec_apply_token(parts, token),
{
    match (parts, token) {
        (Some(p), Some(HintToken::Depth(d))) => Some(
            HintParts { depth: Some(d), convert: p.convert, redraw: p.redraw },
        ),
        (Some(p), Some(HintToken::Convert(c))) => Some(
            HintParts { depth: p.depth, convert: c, redraw: p.redraw },
        ),
        (Some(p), Some(HintToken::Redraw(r))) => Some(
            HintParts { depth: p.depth, convert: p.convert, redraw: r },
        ),
        _ => None,
    }
}

impl Hint {
    /// Reads a hint written for people, such as `Y4|D|R`.
    pub fn try_from_human_readable(s: &str) -> (r: Result<Self, Error>)
        ensures
            r == match spec_parse_human(s@) {
                Some(h) => Ok::<Hint, Error>(h),
                None => Err(Error::Invalid),
            },
            r matches Ok(h) ==> h.valid(),
    {
        let n = s.unicode_len();
        let mut parts: Option<HintParts> = Some(
            HintParts { depth: None, convert: HintConvertMode::Threshold, redraw: false },
        );
        let mut len: usize = 0;
        let mut c0: char = ' ';
        let mut c1: char = ' ';
        let mut i: usize = 0;
        assert(s@.take(0) =~= Seq::<char>::empty());
        assert(spec_split(s@.take(0), '|').drop_last() =~= Seq::<Seq<char>>::empty());
        while i < n
            invariant
                i <= n,
                n == s@.len(),
                spec_split(s@.take(i as int), '|').len() >= 1,
                parts == spec_parts(spec_split(s@.take(i as int), '|').drop_last()),
                len == if spec_split(s@.take(i as int), '|').last().len() < 3 {
                    spec_split(s@.take(i as int), '|').last().len()
                } else {
                    3
                },
                len >= 1 ==> c0 == spec_split(s@.take(i as int), '|').last()[0],
                len >= 2 ==> c1 == spec_split(s@.take(i as int), '|').last()[1],
            decreases n - i,
        {
            let c = s.get_char(i);
            let ghost before = spec_split(s@.take(i as int), '|');
            let ghost after = spec_split(s@.take(i + 1), '|');
            proof {
                assert(s@.take(i + 1).drop_last() =~= s@.take(i as int));
                assert(s@.take(i + 1).last() == c);
            }
            if c == '|' {
                let token = classify(len, c0, c1, Ghost(before.last()));
                parts = apply_token(parts, token);
                len = 0;
                proof {
                    assert(after.drop_last() =~= before);
                }
            } else {
                if len == 0 {
                    c0 = c;
                } else if len == 1 {
                    c1 = c;
                }
                if len < 3 {
                    len += 1;
                }
                proof {
                    assert(after.drop_last() =~= before.drop_last());
                }
            }
            i += 1;
        }
        proof {
            assert(s@.take(i as int) =~= s@);
        }
        let token = classify(len, c0, c1, Ghost(spec_split(s@, '|').last()));
        let parts = apply_token(parts, token);
        match parts {
            Some(p) => match p.depth {
                Some(d) => Ok(Hint::new(d, p.convert, p.redraw)),
                None => Err(Error::Invalid),
            },
            None => Err(Error::Invalid),
        }
    }

    /// Writes the hint for people: bit depth, convert mode and redraw flag,
    /// each by its word, with `|` between them.
    pub fn to_human_readable(&self) -> (r: String)
        ensures
            r@ == spec_format_human(
                self.spec_bit_depth(),
                self.spec_convert_mode(),
                self.spec_redraw(),
            ),
    {
        proof {
            reveal_strlit("Y1");
            reveal_strlit("Y2");
            reveal_strlit("Y4");
            reveal_strlit("|T");
            reveal_strlit("|D");
            reveal_strlit("|R");
            reveal_strlit("|r");
        }
        let mut out = String::new();
        match self.bit_depth() {
            HintBitDepth::Y1 => out.append("Y1"),
            HintBitDepth::Y2 => out.append("Y2"),
            HintBitDepth::Y4 => out.append("Y4"),
        }
        match self.convert_mode() {
            HintConvertMode::Threshold => out.append("|T"),
            HintConvertMode::Dither => out.append("|D"),
        }
        if self.redraw() {
            out.append("|R");
        } else {
            out.append("|r");
        }
        proof {
            assert(out@ =~= spec_format_human(
                self.spec_bit_depth(),
                self.spec_convert_mode(),
                self.spec_redraw(),
            ));
        }
        out
    }
}


/// No character of `t` is a `|`.
pub open spec fn spec_bar_free(t: Seq<char>) -> bool {
    forall|i: int| 0 <= i < t.len() ==> #[trigger] t[i] != '|'
}

/// A text without `|` is a single piece.
pub proof fn lemma_split_word(t: Seq<char>)
    requires
        spec_bar_free(t),
    ensures
        spec_split(t, '|') == seq![t],
    decreases t.len(),
{
    if t.len() > 0 {
        assert(spec_bar_free(t.drop_last())) by {
            assert forall|i: int| 0 <= i < t.drop_last().len() implies #[trigger] t.drop_last()[i]
                != '|' by {
                assert(t.drop_last()[i] == t[i]);
            }
        }
        lemma_split_word(t.drop_last());
        assert(t[t.len() - 1] != '|');
        assert(seq![t.drop_last()].drop_last().push(seq![t.drop_last()].last().push(t.last()))
            =~= seq![t]) by {
            assert(t.drop_last().push(t.last()) =~= t);
        }
    } else {
        assert(seq![Seq::<char>::empty()] =~= seq![t]) by {
            assert(Seq::<char>::empty() =~= t);
        }
    }
}

/// A `|` and a text without `|` add one piece.
pub proof fn lemma_split_append(s: Seq<char>, t: Seq<char>)
    requires
        spec_bar_free(t),
    ensures
        spec_split(s + seq!['|'] + t, '|') == spec_split(s, '|').push(t),
    decreases t.len(),
{
    let whole = s + seq!['|'] + t;
    if t.len() > 0 {
        let shorter = t.drop_last();
        assert(spec_bar_free(shorter)) by {
            assert forall|i: int| 0 <= i < shorter.len() implies #[trigger] shorter[i] != '|' by {
                assert(shorter[i] == t[i]);
            }
        }
        lemma_split_append(s, shorter);
        assert(whole.drop_last() =~= s + seq!['|'] + shorter);
        assert(whole.last() == t[t.len() - 1]);
        let head = spec_split(s, '|').push(shorter);
        assert(head.drop_last() =~= spec_split(s, '|'));
        assert(shorter.push(t.last()) =~= t);
    } else {
        assert(whole.drop_last() =~= s);
        assert(whole.last() == '|');
        assert(t =~= Seq::<char>::empty());
    }
}

/// Reading what was written gives the hint back, for each of the twelve
/// hints there are.
pub proof fn lemma_human_round_trip(
    bit_depth: HintBitDepth,
    convert_mode: HintConvertMode,
    redraw: bool,
)
    ensures
        spec_parse_human(spec_format_human(bit_depth, convert_mode, redraw)) == Some(
            Hint::spec_new(bit_depth, convert_mode, redraw),
        ),
{
    let d = spec_depth_text(bit_depth);
    let c = spec_convert_text(convert_mode);
    let r = spec_redraw_text(redraw);
    lemma_split_word(d);
    lemma_split_append(d, c);
    lemma_split_append(d + seq!['|'] + c, r);
    let tokens = spec_split(spec_format_human(bit_depth, convert_mode, redraw), '|');
    assert(tokens == seq![d].push(c).push(r));
    let one = seq![d];
    let two = seq![d].push(c);
    assert(tokens.drop_last() =~= two);
    assert(two.drop_last() =~= one);
    assert(one.drop_last() =~= Seq::<Seq<char>>::empty());
    assert(spec_parts(one.drop_last()) == Some(
        HintParts { depth: None, convert: HintConvertMode::Threshold, redraw: false },
    ));
    assert(spec_token(d) == Some(HintToken::Depth(bit_depth)));
    assert(spec_token(c) == Some(HintToken::Convert(convert_mode)));
    assert(spec_token(r) == Some(HintToken::Redraw(redraw)));
    assert(spec_parts(one) == Some(
        HintParts { depth: Some(bit_depth), convert: HintConvertMode::Threshold, redraw: false },
    ));
    assert(spec_parts(two) == Some(
        HintParts { depth: Some(bit_depth), convert: convert_mode, redraw: false },
    ));
}

/// Reading what `to_human_readable` writes of a valid hint gives that hint.
pub proof fn lemma_hint_round_trip(h: Hint)
    requires
        h.valid(),
    ensures
        spec_parse_human(
            spec_format_human(h.spec_bit_depth(), h.spec_convert_mode(), h.spec_redraw()),
        ) == Some(h),
{
    lemma_human_round_trip(h.spec_bit_depth(), h.spec_convert_mode(), h.spec_redraw());
    h.lemma_parts();
}

/// How the driver dithers.
#[derive(Clone, Copy, Debug, PartialEq, Eq, Structural)]
pub enum DitheringMethod {
    Bayer,
    BlueNoise16,
    BlueNoise32,
}

impl DitheringMethod {
    /// The number that the driver knows this method by.
    pub open spec fn spec_code(self) -> u8 {
        match self {
            DitheringMethod::Bayer => 0,
            DitheringMethod::BlueNoise16 => 1,
            DitheringMethod::BlueNoise32 => 2,
        }
    }

    pub fn code(self) -> (r: u8)
        ensures
            r == self.spec_code(),
    {
        match self {
            DitheringMethod::Bayer => 0,
            DitheringMethod::BlueNoise16 => 1,
            DitheringMethod::BlueNoise32 => 2,
        }
    }

    /// The method that the driver knows by `number`.
    pub fn try_from_primitive(number: u8) -> (r: Result<Self, Error>)
        ensures
            number > 2 ==> r == Err::<Self, Error>(Error::Method(number)),
            number <= 2 ==> r is Ok && r.unwrap().spec_code() == number,
    {
        if number == 0 {
            Ok(DitheringMethod::Bayer)
        } else if number == 1 {
            Ok(DitheringMethod::BlueNoise16)
        } else if number == 2 {
            Ok(DitheringMethod::BlueNoise32)
        } else {
            Err(Error::Method(number))
        }
    }

    /// Reads a method from the decimal text of its number.
    pub fn from_str(s: &str) -> (r: Result<Self, Error>)
        ensures
            match spec_parse_decimal(s@, 0, 255) {
                None => r == Err::<Self, Error>(Error::Parse),
                Some(v) => if v > 2 {
                    r == Err::<Self, Error>(Error::Method(v as u8))
                } else {
                    r is Ok && r.unwrap().spec_code() == v
                },
            },
    {
        match parse_u8(s) {
            Some(v) => Self::try_from_primitive(v),
            None => Err(Error::Parse),
        }
    }
}

impl core::str::FromStr for DitheringMethod {
    type Err = Error;

    fn from_str(s: &str) -> (r: Result<Self, Error>)
        ensures
            match spec_parse_decimal(s@, 0, 255) {
                None => r == Err::<Self, Error>(Error::Parse),
                Some(v) => if v > 2 {
                    r == Err::<Self, Error>(Error::Method(v as u8))
                } else {
                    r is Ok && r.unwrap().spec_code() == v
                },
            },
    {
        DitheringMethod::from_str(s)
    }
}

/// Which pixel clock the driver runs the panel with.
#[derive(Clone, Copy, Debug, PartialEq, Eq, Structural)]
pub enum DclkSelect {
    Mode,
    Mhz200,
    Mhz250,
}

impl DclkSelect {
    /// The number that the driver knows this selection by.
    pub open spec fn spec_code(self) -> i32 {
        match self {
            DclkSelect::Mode => (-1i32),
            DclkSelect::Mhz200 => 0,
            DclkSelect::Mhz250 => 1,
        }
    }

    pub fn code(self) -> (r: i32)
        ensures
            r == self.spec_code(),
    {
        match self {
            DclkSelect::Mode => -1,
            DclkSelect::Mhz200 => 0,
            DclkSelect::Mhz250 => 1,
        }
    }

    /// The selection that the driver knows by `number`.
    pub fn try_from_primitive(number: i32) -> (r: Result<Self, Error>)
        ensures
            !(-1 <= number <= 1) ==> r == Err::<Self, Error>(Error::DclkSelect(number)),
            -1 <= number <= 1 ==> r is Ok && r.unwrap().spec_code() == number,
    {
        if number == -1 {
            Ok(DclkSelect::Mode)
        } else if number == 0 {
            Ok(DclkSelect::Mhz200)
        } else if number == 1 {
            Ok(DclkSelect::Mhz250)
        } else {
            Err(Error::DclkSelect(number))
        }
    }

    /// Reads a selection from the decimal text of its number.
    pub fn from_str(s: &str) -> (r: Result<Self, Error>)
        ensures
            match spec_parse_decimal(s@, i32::MIN as int, i32::MAX as int) {
                None => r == Err::<Self, Error>(Error::Parse),
                Some(v) => if !(-1 <= v <= 1) {
                    r == Err::<Self, Error>(Error::DclkSelect(v as i32))
                } else {
                    r is Ok && r.unwrap().spec_code() == v
                },
            },
    {
        match parse_i32(s) {
            Some(v) => Self::try_from_primitive(v),
            None => Err(Error::Parse),
        }
    }
}

impl core::str::FromStr for DclkSelect {
    type Err = Error;

    fn from_str(s: &str) -> (r: Result<Self, Error>)
        ensures
            match spec_parse_decimal(s@, i32::MIN as int, i32::MAX as int) {
                None => r == Err::<Self, Error>(Error::Parse),
                Some(v) => if !(-1 <= v <= 1) {
                    r == Err::<Self, Error>(Error::DclkSelect(v as i32))
                } else {
                    r is Ok && r.unwrap().spec_code() == v
                },
            },
    {
        DclkSelect::from_str(s)
    }
}

/// A region of the screen and the hint that its pixels are rendered with.
#[derive(Clone, Copy, Debug, PartialEq, Eq, Structural)]
pub struct RectHint {
    pub rect: Rect,
    pub hint: Hint,
}

} // verus!
