//! Caption character sets: what CEA-608 and CEA-708 can show, and the plain
//! stand-ins for what they cannot.
use vstd::prelude::*;

verus! {

/// One displayed character cell in CEA-608.
#[derive(Clone, Copy, Debug, PartialEq, Eq, Structural)]
pub enum Cell {
    /// Standard character (one byte, 0x20-0x7F, 608 meaning).
    Basic(u8),
    /// Special North American character: `0x11 lo` (lo 0x30-0x3F).
    Special(u8),
    /// Extended character: `set lo` (set 0x12 or 0x13), sent after `base`,
    /// which it overwrites on decoders that support it.
    Extended { set: u8, lo: u8, base: u8 },
}

/// A cell in a 708 line: the bytes that encode one character (G0/G1 one
/// byte, G2/G3 `EXT1 xx`).
pub type Cell708 = Vec<u8>;

/// The bytes of each cell of a 708 line.
pub open spec fn cell_bytes(cells: Seq<Cell708>) -> Seq<Seq<u8>> {
    cells.map_values(|cell: Cell708| cell@)
}

/// The 608 cell of a character in the 608 repertoire.
pub open spec fn repertoire_608(c: char) -> Option<Cell> {
    match c {
        // ASCII positions that 608 redefines are sent via the extended sets.
        '*' => Some(Cell::Extended { set: 0x12, lo: 0x28, base: 0x2E }),
        '\\' => Some(Cell::Extended { set: 0x13, lo: 0x2B, base: 0x2F }),
        '^' => Some(Cell::Extended { set: 0x13, lo: 0x2C, base: 0x20 }),
        '_' => Some(Cell::Extended { set: 0x13, lo: 0x2D, base: 0x2D }),
        '`' => Some(Cell::Basic(0x27)),
        '{' => Some(Cell::Extended { set: 0x13, lo: 0x29, base: 0x28 }),
        '|' => Some(Cell::Extended { set: 0x13, lo: 0x2E, base: 0x21 }),
        '}' => Some(Cell::Extended { set: 0x13, lo: 0x2A, base: 0x29 }),
        '~' => Some(Cell::Extended { set: 0x13, lo: 0x2F, base: 0x2D }),
        ' '..='~' => Some(Cell::Basic(c as u8)),
        // Basic set replacements.
        'á' => Some(Cell::Basic(0x2A)),
        'é' => Some(Cell::Basic(0x5C)),
        'í' => Some(Cell::Basic(0x5E)),
        'ó' => Some(Cell::Basic(0x5F)),
        'ú' => Some(Cell::Basic(0x60)),
        'ç' => Some(Cell::Basic(0x7B)),
        '÷' => Some(Cell::Basic(0x7C)),
        'Ñ' => Some(Cell::Basic(0x7D)),
        'ñ' => Some(Cell::Basic(0x7E)),
        '█' => Some(Cell::Basic(0x7F)),
        // Special North American set (0x11 0x30–0x3F).
        '®' => Some(Cell::Special(0x30)),
        '°' => Some(Cell::Special(0x31)),
        '½' => Some(Cell::Special(0x32)),
        '¿' => Some(Cell::Special(0x33)),
        '™' => Some(Cell::Special(0x34)),
        '¢' => Some(Cell::Special(0x35)),
        '£' => Some(Cell::Special(0x36)),
        '♪' => Some(Cell::Special(0x37)),
        'à' => Some(Cell::Special(0x38)),
        'è' => Some(Cell::Special(0x3A)),
        'â' => Some(Cell::Special(0x3B)),
        'ê' => Some(Cell::Special(0x3C)),
        'î' => Some(Cell::Special(0x3D)),
        'ô' => Some(Cell::Special(0x3E)),
        'û' => Some(Cell::Special(0x3F)),
        // Extended Spanish/French/misc (0x12 0x20–0x3F).
        'Á' => Some(Cell::Extended { set: 0x12, lo: 0x20, base: 0x41 }),
        'É' => Some(Cell::Extended { set: 0x12, lo: 0x21, base: 0x45 }),
        'Ó' => Some(Cell::Extended { set: 0x12, lo: 0x22, base: 0x4F }),
        'Ú' => Some(Cell::Extended { set: 0x12, lo: 0x23, base: 0x55 }),
        'Ü' => Some(Cell::Extended { set: 0x12, lo: 0x24, base: 0x55 }),
        'ü' => Some(Cell::Extended { set: 0x12, lo: 0x25, base: 0x75 }),
        '‘' => Some(Cell::Extended { set: 0x12, lo: 0x26, base: 0x27 }),
        '¡' => Some(Cell::Extended { set: 0x12, lo: 0x27, base: 0x21 }),
        '’' => Some(Cell::Basic(0x27)),
        '—' | '–' => Some(Cell::Extended { set: 0x12, lo: 0x2A, base: 0x2D }),
        '©' => Some(Cell::Extended { set: 0x12, lo: 0x2B, base: 0x63 }),
        '℠' => Some(Cell::Extended { set: 0x12, lo: 0x2C, base: 0x73 }),
        '•' => Some(Cell::Extended { set: 0x12, lo: 0x2D, base: 0x2E }),
        '“' => Some(Cell::Extended { set: 0x12, lo: 0x2E, base: 0x22 }),
        '”' => Some(Cell::Extended { set: 0x12, lo: 0x2F, base: 0x22 }),
        'À' => Some(Cell::Extended { set: 0x12, lo: 0x30, base: 0x41 }),
        'Â' => Some(Cell::Extended { set: 0x12, lo: 0x31, base: 0x41 }),
        'Ç' => Some(Cell::Extended { set: 0x12, lo: 0x32, base: 0x43 }),
        'È' => Some(Cell::Extended { set: 0x12, lo: 0x33, base: 0x45 }),
        'Ê' => Some(Cell::Extended { set: 0x12, lo: 0x34, base: 0x45 }),
        'Ë' => Some(Cell::Extended { set: 0x12, lo: 0x35, base: 0x45 }),
        'ë' => Some(Cell::Extended { set: 0x12, lo: 0x36, base: 0x65 }),
        'Î' => Some(Cell::Extended { set: 0x12, lo: 0x37, base: 0x49 }),
        'Ï' => Some(Cell::Extended { set: 0x12, lo: 0x38, base: 0x49 }),
        'ï' => Some(Cell::Extended { set: 0x12, lo: 0x39, base: 0x69 }),
        'Ô' => Some(Cell::Extended { set: 0x12, lo: 0x3A, base: 0x4F }),
        'Ù' => Some(Cell::Extended { set: 0x12, lo: 0x3B, base: 0x55 }),
        'ù' => Some(Cell::Extended { set: 0x12, lo: 0x3C, base: 0x75 }),
        'Û' => Some(Cell::Extended { set: 0x12, lo: 0x3D, base: 0x55 }),
        '«' => Some(Cell::Extended { set: 0x12, lo: 0x3E, base: 0x22 }),
        '»' => Some(Cell::Extended { set: 0x12, lo: 0x3F, base: 0x22 }),
        // Extended Portuguese/German/Danish (0x13 0x20–0x3F).
        'Ã' => Some(Cell::Extended { set: 0x13, lo: 0x20, base: 0x41 }),
        'ã' => Some(Cell::Extended { set: 0x13, lo: 0x21, base: 0x61 }),
        'Í' => Some(Cell::Extended { set: 0x13, lo: 0x22, base: 0x49 }),
        'Ì' => Some(Cell::Extended { set: 0x13, lo: 0x23, base: 0x49 }),
        'ì' => Some(Cell::Extended { set: 0x13, lo: 0x24, base: 0x69 }),
        'Ò' => Some(Cell::Extended { set: 0x13, lo: 0x25, base: 0x4F }),
        'ò' => Some(Cell::Extended { set: 0x13, lo: 0x26, base: 0x6F }),
        'Õ' => Some(Cell::Extended { set: 0x13, lo: 0x27, base: 0x4F }),
        'õ' => Some(Cell::Extended { set: 0x13, lo: 0x28, base: 0x6F }),
        'Ä' => Some(Cell::Extended { set: 0x13, lo: 0x30, base: 0x41 }),
        'ä' => Some(Cell::Extended { set: 0x13, lo: 0x31, base: 0x61 }),
        'Ö' => Some(Cell::Extended { set: 0x13, lo: 0x32, base: 0x4F }),
        'ö' => Some(Cell::Extended { set: 0x13, lo: 0x33, base: 0x6F }),
        'ß' => Some(Cell::Extended { set: 0x13, lo: 0x34, base: 0x73 }),
        '¥' => Some(Cell::Extended { set: 0x13, lo: 0x35, base: 0x59 }),
        '¤' => Some(Cell::Extended { set: 0x13, lo: 0x36, base: 0x6F }),
        '¦' => Some(Cell::Extended { set: 0x13, lo: 0x37, base: 0x21 }),
        'Å' => Some(Cell::Extended { set: 0x13, lo: 0x38, base: 0x41 }),
        'å' => Some(Cell::Extended { set: 0x13, lo: 0x39, base: 0x61 }),
        'Ø' => Some(Cell::Extended { set: 0x13, lo: 0x3A, base: 0x4F }),
        'ø' => Some(Cell::Extended { set: 0x13, lo: 0x3B, base: 0x6F }),
        '┌' => Some(Cell::Extended { set: 0x13, lo: 0x3C, base: 0x2B }),
        '┐' => Some(Cell::Extended { set: 0x13, lo: 0x3D, base: 0x2B }),
        '└' => Some(Cell::Extended { set: 0x13, lo: 0x3E, base: 0x2B }),
        '┘' => Some(Cell::Extended { set: 0x13, lo: 0x3F, base: 0x2B }),
        _ => None,
    }
}

fn find_608(c: char) -> (r: Option<Cell>)
    ensures
        r == repertoire_608(c),
{
    match c {
        // ASCII positions that 608 redefines are sent via the extended sets.
        '*' => Some(Cell::Extended { set: 0x12, lo: 0x28, base: 0x2E }),
        '\\' => Some(Cell::Extended { set: 0x13, lo: 0x2B, base: 0x2F }),
        '^' => Some(Cell::Extended { set: 0x13, lo: 0x2C, base: 0x20 }),
        '_' => Some(Cell::Extended { set: 0x13, lo: 0x2D, base: 0x2D }),
        '`' => Some(Cell::Basic(0x27)),
        '{' => Some(Cell::Extended { set: 0x13, lo: 0x29, base: 0x28 }),
        '|' => Some(Cell::Extended { set: 0x13, lo: 0x2E, base: 0x21 }),
        '}' => Some(Cell::Extended { set: 0x13, lo: 0x2A, base: 0x29 }),
        '~' => Some(Cell::Extended { set: 0x13, lo: 0x2F, base: 0x2D }),
        ' '..='~' => Some(Cell::Basic(c as u8)),
        // Basic set replacements.
        'á' => Some(Cell::Basic(0x2A)),
        'é' => Some(Cell::Basic(0x5C)),
        'í' => Some(Cell::Basic(0x5E)),
        'ó' => Some(Cell::Basic(0x5F)),
        'ú' => Some(Cell::Basic(0x60)),
        'ç' => Some(Cell::Basic(0x7B)),
        '÷' => Some(Cell::Basic(0x7C)),
        'Ñ' => Some(Cell::Basic(0x7D)),
        'ñ' => Some(Cell::Basic(0x7E)),
        '█' => Some(Cell::Basic(0x7F)),
        // Special North American set (0x11 0x30–0x3F).
        '®' => Some(Cell::Special(0x30)),
        '°' => Some(Cell::Special(0x31)),
        '½' => Some(Cell::Special(0x32)),
        '¿' => Some(Cell::Special(0x33)),
        '™' => Some(Cell::Special(0x34)),
        '¢' => Some(Cell::Special(0x35)),
        '£' => Some(Cell::Special(0x36)),
        '♪' => Some(Cell::Special(0x37)),
        'à' => Some(Cell::Special(0x38)),
        'è' => Some(Cell::Special(0x3A)),
        'â' => Some(Cell::Special(0x3B)),
        'ê' => Some(Cell::Special(0x3C)),
        'î' => Some(Cell::Special(0x3D)),
        'ô' => Some(Cell::Special(0x3E)),
        'û' => Some(Cell::Special(0x3F)),
        // Extended Spanish/French/misc (0x12 0x20–0x3F).
        'Á' => Some(Cell::Extended { set: 0x12, lo: 0x20, base: 0x41 }),
        'É' => Some(Cell::Extended { set: 0x12, lo: 0x21, base: 0x45 }),
        'Ó' => Some(Cell::Extended { set: 0x12, lo: 0x22, base: 0x4F }),
        'Ú' => Some(Cell::Extended { set: 0x12, lo: 0x23, base: 0x55 }),
        'Ü' => Some(Cell::Extended { set: 0x12, lo: 0x24, base: 0x55 }),
        'ü' => Some(Cell::Extended { set: 0x12, lo: 0x25, base: 0x75 }),
        '‘' => Some(Cell::Extended { set: 0x12, lo: 0x26, base: 0x27 }),
        '¡' => Some(Cell::Extended { set: 0x12, lo: 0x27, base: 0x21 }),
        '’' => Some(Cell::Basic(0x27)),
        '—' | '–' => Some(Cell::Extended { set: 0x12, lo: 0x2A, base: 0x2D }),
        '©' => Some(Cell::Extended { set: 0x12, lo: 0x2B, base: 0x63 }),
        '℠' => Some(Cell::Extended { set: 0x12, lo: 0x2C, base: 0x73 }),
        '•' => Some(Cell::Extended { set: 0x12, lo: 0x2D, base: 0x2E }),
        '“' => Some(Cell::Extended { set: 0x12, lo: 0x2E, base: 0x22 }),
        '”' => Some(Cell::Extended { set: 0x12, lo: 0x2F, base: 0x22 }),
        'À' => Some(Cell::Extended { set: 0x12, lo: 0x30, base: 0x41 }),
        'Â' => Some(Cell::Extended { set: 0x12, lo: 0x31, base: 0x41 }),
        'Ç' => Some(Cell::Extended { set: 0x12, lo: 0x32, base: 0x43 }),
        'È' => Some(Cell::Extended { set: 0x12, lo: 0x33, base: 0x45 }),
        'Ê' => Some(Cell::Extended { set: 0x12, lo: 0x34, base: 0x45 }),
        'Ë' => Some(Cell::Extended { set: 0x12, lo: 0x35, base: 0x45 }),
        'ë' => Some(Cell::Extended { set: 0x12, lo: 0x36, base: 0x65 }),
        'Î' => Some(Cell::Extended { set: 0x12, lo: 0x37, base: 0x49 }),
        'Ï' => Some(Cell::Extended { set: 0x12, lo: 0x38, base: 0x49 }),
        'ï' => Some(Cell::Extended { set: 0x12, lo: 0x39, base: 0x69 }),
        'Ô' => Some(Cell::Extended { set: 0x12, lo: 0x3A, base: 0x4F }),
        'Ù' => Some(Cell::Extended { set: 0x12, lo: 0x3B, base: 0x55 }),
        'ù' => Some(Cell::Extended { set: 0x12, lo: 0x3C, base: 0x75 }),
        'Û' => Some(Cell::Extended { set: 0x12, lo: 0x3D, base: 0x55 }),
        '«' => Some(Cell::Extended { set: 0x12, lo: 0x3E, base: 0x22 }),
        '»' => Some(Cell::Extended { set: 0x12, lo: 0x3F, base: 0x22 }),
        // Extended Portuguese/German/Danish (0x13 0x20–0x3F).
        'Ã' => Some(Cell::Extended { set: 0x13, lo: 0x20, base: 0x41 }),
        'ã' => Some(Cell::Extended { set: 0x13, lo: 0x21, base: 0x61 }),
        'Í' => Some(Cell::Extended { set: 0x13, lo: 0x22, base: 0x49 }),
        'Ì' => Some(Cell::Extended { set: 0x13, lo: 0x23, base: 0x49 }),
        'ì' => Some(Cell::Extended { set: 0x13, lo: 0x24, base: 0x69 }),
        'Ò' => Some(Cell::Extended { set: 0x13, lo: 0x25, base: 0x4F }),
        'ò' => Some(Cell::Extended { set: 0x13, lo: 0x26, base: 0x6F }),
        'Õ' => Some(Cell::Extended { set: 0x13, lo: 0x27, base: 0x4F }),
        'õ' => Some(Cell::Extended { set: 0x13, lo: 0x28, base: 0x6F }),
        'Ä' => Some(Cell::Extended { set: 0x13, lo: 0x30, base: 0x41 }),
        'ä' => Some(Cell::Extended { set: 0x13, lo: 0x31, base: 0x61 }),
        'Ö' => Some(Cell::Extended { set: 0x13, lo: 0x32, base: 0x4F }),
        'ö' => Some(Cell::Extended { set: 0x13, lo: 0x33, base: 0x6F }),
        'ß' => Some(Cell::Extended { set: 0x13, lo: 0x34, base: 0x73 }),
        '¥' => Some(Cell::Extended { set: 0x13, lo: 0x35, base: 0x59 }),
        '¤' => Some(Cell::Extended { set: 0x13, lo: 0x36, base: 0x6F }),
        '¦' => Some(Cell::Extended { set: 0x13, lo: 0x37, base: 0x21 }),
        'Å' => Some(Cell::Extended { set: 0x13, lo: 0x38, base: 0x41 }),
        'å' => Some(Cell::Extended { set: 0x13, lo: 0x39, base: 0x61 }),
        'Ø' => Some(Cell::Extended { set: 0x13, lo: 0x3A, base: 0x4F }),
        'ø' => Some(Cell::Extended { set: 0x13, lo: 0x3B, base: 0x6F }),
        '┌' => Some(Cell::Extended { set: 0x13, lo: 0x3C, base: 0x2B }),
        '┐' => Some(Cell::Extended { set: 0x13, lo: 0x3D, base: 0x2B }),
        '└' => Some(Cell::Extended { set: 0x13, lo: 0x3E, base: 0x2B }),
        '┘' => Some(Cell::Extended { set: 0x13, lo: 0x3F, base: 0x2B }),
        _ => None,
    }
}

/// The code of a character in the CEA-708 G2 set (reached with EXT1 0x10).
pub open spec fn g2_set(c: char) -> Option<u8> {
    match c {
        '…' => Some(0x25u8),
        'Š' => Some(0x2Au8),
        'Œ' => Some(0x2Cu8),
        '█' => Some(0x30u8),
        '‘' => Some(0x31u8),
        '’' => Some(0x32u8),
        '“' => Some(0x33u8),
        '”' => Some(0x34u8),
        '•' => Some(0x35u8),
        '™' => Some(0x39u8),
        'š' => Some(0x3Au8),
        'œ' => Some(0x3Cu8),
        '℠' => Some(0x3Du8),
        'Ÿ' => Some(0x3Fu8),
        '⅛' => Some(0x76u8),
        '⅜' => Some(0x77u8),
        '⅝' => Some(0x78u8),
        '⅞' => Some(0x79u8),
        '│' => Some(0x7Au8),
        '┐' => Some(0x7Bu8),
        '└' => Some(0x7Cu8),
        '─' => Some(0x7Du8),
        '┘' => Some(0x7Eu8),
        '┌' => Some(0x7Fu8),
        _ => None,
    }
}

fn g2(c: char) -> (r: Option<u8>)
    ensures
        r == g2_set(c),
{
    match c {
        '…' => Some(0x25u8),
        'Š' => Some(0x2Au8),
        'Œ' => Some(0x2Cu8),
        '█' => Some(0x30u8),
        '‘' => Some(0x31u8),
        '’' => Some(0x32u8),
        '“' => Some(0x33u8),
        '”' => Some(0x34u8),
        '•' => Some(0x35u8),
        '™' => Some(0x39u8),
        'š' => Some(0x3Au8),
        'œ' => Some(0x3Cu8),
        '℠' => Some(0x3Du8),
        'Ÿ' => Some(0x3Fu8),
        '⅛' => Some(0x76u8),
        '⅜' => Some(0x77u8),
        '⅝' => Some(0x78u8),
        '⅞' => Some(0x79u8),
        '│' => Some(0x7Au8),
        '┐' => Some(0x7Bu8),
        '└' => Some(0x7Cu8),
        '─' => Some(0x7Du8),
        '┘' => Some(0x7Eu8),
        '┌' => Some(0x7Fu8),
        _ => None,
    }
}

/// Plain-text stand-ins for characters a caption set lacks; `None` for
/// characters to drop (emoji, non-Latin scripts, control codes).
pub open spec fn stand_in(c: char) -> Option<Seq<char>> {
    match c {
        '\t' | '\r' | '\u{A0}' | '\u{2000}'..='\u{200A}' | '\u{202F}' | '\u{3000}' => Some(" "@),
        '…' => Some("..."@),
        '–' | '—' | '‐' | '‑' | '−' => Some("-"@),
        '‘' | '’' | '‚' | '′' => Some("'"@),
        '“' | '”' | '„' | '″' | '«' | '»' => Some("\""@),
        '•' | '·' => Some("."@),
        '€' => Some("EUR"@),
        'œ' => Some("oe"@),
        'Œ' => Some("OE"@),
        'æ' => Some("ae"@),
        'Æ' => Some("AE"@),
        'ß' => Some("ss"@),
        'ÿ' => Some("y"@),
        'Ÿ' => Some("Y"@),
        'ā' | 'ă' | 'ą' | 'ǎ' | 'á' | 'à' | 'â' | 'ä' | 'ã' | 'å' => Some("a"@),
        'Ā' | 'Ă' | 'Ą' | 'Á' | 'À' | 'Â' | 'Ä' | 'Ã' | 'Å' => Some("A"@),
        'ć' | 'ĉ' | 'ċ' | 'č' | 'ç' => Some("c"@),
        'Ć' | 'Ĉ' | 'Ċ' | 'Č' | 'Ç' => Some("C"@),
        'ď' | 'đ' => Some("d"@),
        'Ď' | 'Đ' => Some("D"@),
        'ē' | 'ĕ' | 'ė' | 'ę' | 'ě' | 'é' | 'è' | 'ê' | 'ë' => Some("e"@),
        'Ē' | 'Ĕ' | 'Ė' | 'Ę' | 'Ě' | 'É' | 'È' | 'Ê' | 'Ë' => Some("E"@),
        'ĝ' | 'ğ' | 'ġ' | 'ģ' => Some("g"@),
        'Ĝ' | 'Ğ' | 'Ġ' | 'Ģ' => Some("G"@),
        'ĩ' | 'ī' | 'ĭ' | 'į' | 'ı' | 'í' | 'ì' | 'î' | 'ï' => Some("i"@),
        'Ĩ' | 'Ī' | 'Ĭ' | 'Į' | 'İ' | 'Í' | 'Ì' | 'Î' | 'Ï' => Some("I"@),
        'ł' | 'ľ' | 'ĺ' | 'ļ' => Some("l"@),
        'Ł' | 'Ľ' | 'Ĺ' | 'Ļ' => Some("L"@),
        'ń' | 'ň' | 'ņ' | 'ñ' => Some("n"@),
        'Ń' | 'Ň' | 'Ņ' | 'Ñ' => Some("N"@),
        'ō' | 'ŏ' | 'ő' | 'ó' | 'ò' | 'ô' | 'ö' | 'õ' | 'ø' => Some("o"@),
        'Ō' | 'Ŏ' | 'Ő' | 'Ó' | 'Ò' | 'Ô' | 'Ö' | 'Õ' | 'Ø' => Some("O"@),
        'ŕ' | 'ř' => Some("r"@),
        'Ŕ' | 'Ř' => Some("R"@),
        'ś' | 'ŝ' | 'ş' | 'š' | 'ș' => Some("s"@),
        'Ś' | 'Ŝ' | 'Ş' | 'Š' | 'Ș' => Some("S"@),
        'ţ' | 'ť' | 'ț' => Some("t"@),
        'Ţ' | 'Ť' | 'Ț' => Some("T"@),
        'ũ' | 'ū' | 'ŭ' | 'ů' | 'ű' | 'ų' | 'ú' | 'ù' | 'û' | 'ü' => Some("u"@),
        'Ũ' | 'Ū' | 'Ŭ' | 'Ů' | 'Ű' | 'Ų' | 'Ú' | 'Ù' | 'Û' | 'Ü' => Some("U"@),
        'ý' | 'ŷ' => Some("y"@),
        'Ý' | 'Ŷ' => Some("Y"@),
        'ź' | 'ż' | 'ž' => Some("z"@),
        'Ź' | 'Ż' | 'Ž' => Some("Z"@),
        _ => None,
    }
}

fn fallback(c: char) -> (r: Option<&'static str>)
    ensures
        r is Some == stand_in(c) is Some,
        r is Some ==> r->0@ == stand_in(c)->0,
{
    match c {
        '\t' | '\r' | '\u{A0}' | '\u{2000}'..='\u{200A}' | '\u{202F}' | '\u{3000}' => Some(" "),
        '…' => Some("..."),
        '–' | '—' | '‐' | '‑' | '−' => Some("-"),
        '‘' | '’' | '‚' | '′' => Some("'"),
        '“' | '”' | '„' | '″' | '«' | '»' => Some("\""),
        '•' | '·' => Some("."),
        '€' => Some("EUR"),
        'œ' => Some("oe"),
        'Œ' => Some("OE"),
        'æ' => Some("ae"),
        'Æ' => Some("AE"),
        'ß' => Some("ss"),
        'ÿ' => Some("y"),
        'Ÿ' => Some("Y"),
        'ā' | 'ă' | 'ą' | 'ǎ' | 'á' | 'à' | 'â' | 'ä' | 'ã' | 'å' => Some("a"),
        'Ā' | 'Ă' | 'Ą' | 'Á' | 'À' | 'Â' | 'Ä' | 'Ã' | 'Å' => Some("A"),
        'ć' | 'ĉ' | 'ċ' | 'č' | 'ç' => Some("c"),
        'Ć' | 'Ĉ' | 'Ċ' | 'Č' | 'Ç' => Some("C"),
        'ď' | 'đ' => Some("d"),
        'Ď' | 'Đ' => Some("D"),
        'ē' | 'ĕ' | 'ė' | 'ę' | 'ě' | 'é' | 'è' | 'ê' | 'ë' => Some("e"),
        'Ē' | 'Ĕ' | 'Ė' | 'Ę' | 'Ě' | 'É' | 'È' | 'Ê' | 'Ë' => Some("E"),
        'ĝ' | 'ğ' | 'ġ' | 'ģ' => Some("g"),
        'Ĝ' | 'Ğ' | 'Ġ' | 'Ģ' => Some("G"),
        'ĩ' | 'ī' | 'ĭ' | 'į' | 'ı' | 'í' | 'ì' | 'î' | 'ï' => Some("i"),
        'Ĩ' | 'Ī' | 'Ĭ' | 'Į' | 'İ' | 'Í' | 'Ì' | 'Î' | 'Ï' => Some("I"),
        'ł' | 'ľ' | 'ĺ' | 'ļ' => Some("l"),
        'Ł' | 'Ľ' | 'Ĺ' | 'Ļ' => Some("L"),
        'ń' | 'ň' | 'ņ' | 'ñ' => Some("n"),
        'Ń' | 'Ň' | 'Ņ' | 'Ñ' => Some("N"),
        'ō' | 'ŏ' | 'ő' | 'ó' | 'ò' | 'ô' | 'ö' | 'õ' | 'ø' => Some("o"),
        'Ō' | 'Ŏ' | 'Ő' | 'Ó' | 'Ò' | 'Ô' | 'Ö' | 'Õ' | 'Ø' => Some("O"),
        'ŕ' | 'ř' => Some("r"),
        'Ŕ' | 'Ř' => Some("R"),
        'ś' | 'ŝ' | 'ş' | 'š' | 'ș' => Some("s"),
        'Ś' | 'Ŝ' | 'Ş' | 'Š' | 'Ș' => Some("S"),
        'ţ' | 'ť' | 'ț' => Some("t"),
        'Ţ' | 'Ť' | 'Ț' => Some("T"),
        'ũ' | 'ū' | 'ŭ' | 'ů' | 'ű' | 'ų' | 'ú' | 'ù' | 'û' | 'ü' => Some("u"),
        'Ũ' | 'Ū' | 'Ŭ' | 'Ů' | 'Ű' | 'Ų' | 'Ú' | 'Ù' | 'Û' | 'Ü' => Some("U"),
        'ý' | 'ŷ' => Some("y"),
        'Ý' | 'Ŷ' => Some("Y"),
        'ź' | 'ż' | 'ž' => Some("z"),
        'Ź' | 'Ż' | 'Ž' => Some("Z"),
        _ => None,
    }
}

/// The 608 cells of a run of characters, those outside the repertoire left out.
pub open spec fn spelled_608(s: Seq<char>) -> Seq<Cell>
    decreases s.len(),
{
    if s.len() == 0 {
        seq![]
    } else {
        let head = spelled_608(s.drop_last());
        match repertoire_608(s.last()) {
            Some(cell) => head.push(cell),
            None => head,
        }
    }
}

/// The 608 cells that show one character: its own, those of its stand-in, or
/// none at all.
pub open spec fn shown_608(c: char) -> Seq<Cell> {
    match repertoire_608(c) {
        Some(cell) => seq![cell],
        None => match stand_in(c) {
            Some(s) => spelled_608(s),
            None => seq![],
        },
    }
}

/// The bytes of a character that CEA-708 can show (G0 ASCII, G1 Latin-1, G2
/// behind EXT1).
pub open spec fn repertoire_708(c: char) -> Option<Seq<u8>> {
    match c {
        '♪' => Some(seq![0x7Fu8]),
        ' '..='~' => Some(seq![c as u8]),
        '\u{A0}'..='\u{FF}' => Some(seq![c as u8]),
        _ => match g2_set(c) {
            Some(b) => Some(seq![0x10u8, b]),
            None => None,
        },
    }
}

/// The 708 cells of a run of characters, those outside the repertoire left out.
pub open spec fn spelled_708(s: Seq<char>) -> Seq<Seq<u8>>
    decreases s.len(),
{
    if s.len() == 0 {
        seq![]
    } else {
        let head = spelled_708(s.drop_last());
        match repertoire_708(s.last()) {
            Some(cell) => head.push(cell),
            None => head,
        }
    }
}

/// The 708 cells that show one character: its own, those of its stand-in, or
/// none at all.
pub open spec fn shown_708(c: char) -> Seq<Seq<u8>> {
    match repertoire_708(c) {
        Some(cell) => seq![cell],
        None => match stand_in(c) {
            Some(s) => spelled_708(s),
            None => seq![],
        },
    }
}

fn find_708(c: char) -> (r: Option<Cell708>)
    ensures
        r is Some == repertoire_708(c) is Some,
        r is Some ==> r->0@ == repertoire_708(c)->0,
{
    match c {
        '♪' => Some(vec![0x7Fu8]),
        ' '..='~' => Some(vec![c as u8]),
        '\u{A0}'..='\u{FF}' => Some(vec![c as u8]),
        _ => match g2(c) {
            Some(b) => Some(vec![0x10u8, b]),
            None => None,
        },
    }
}

/// Maps a character to 608 cells. Unsupported letters with diacritics fall
/// back to the plain letter; anything else unsupported is dropped.
pub fn map_608(c: char) -> (r: Vec<Cell>)
    ensures
        r@ == shown_608(c),
{
    let mut r: Vec<Cell> = Vec::new();
    match find_608(c) {
        Some(cell) => r.push(cell),
        None => match fallback(c) {
            Some(s) => {
                for f in it: s.chars()
                    invariant
                        it.seq() == s@,
                        r@ == spelled_608(s@.take(it.index() as int)),
                {
                    assert(s@.take(it.index() + 1).drop_last() == s@.take(it.index() as int));
                    if let Some(cell) = find_608(f) {
                        r.push(cell);
                    }
                }
                assert(s@.take(s@.len() as int) == s@);
            },
            None => {},
        },
    }
    r
}

/// Maps a character to CEA-708 cells (G0 ASCII, G1 Latin-1, G2/G3 via EXT1).
pub fn map_708(c: char) -> (r: Vec<Cell708>)
    ensures
        cell_bytes(r@) == shown_708(c),
{
    let mut r: Vec<Cell708> = Vec::new();
    match find_708(c) {
        Some(cell) => {
            r.push(cell);
            assert(cell_bytes(r@) == seq![cell@]);
        },
        None => match fallback(c) {
            Some(s) => {
                for f in it: s.chars()
                    invariant
                        it.seq() == s@,
                        cell_bytes(r@) == spelled_708(s@.take(it.index() as int)),
                {
                    assert(s@.take(it.index() + 1).drop_last() == s@.take(it.index() as int));
                    if let Some(cell) = find_708(f) {
                        let ghost before = cell_bytes(r@);
                        r.push(cell);
                        assert(cell_bytes(r@) == before.push(cell@));
                    }
                }
                assert(s@.take(s@.len() as int) == s@);
            },
            None => {},
        },
    }
    r
}

} // verus!
