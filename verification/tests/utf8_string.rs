use spinoso::utf8::Utf8String;

const REPLACEMENT_CHARACTER_BYTES: [u8; 3] = [239, 191, 189];

#[test]
fn constructs_empty_buffer() {
    let s = Utf8String::new(Vec::new());
    assert_eq!(0, s.len());
}

#[test]
fn char_len_empty() {
    let s = Utf8String::new("".as_bytes().to_vec());
    assert_eq!(s.char_len(), 0);
}

#[test]
fn char_len_ascii() {
    let s = Utf8String::new("Artichoke Ruby".as_bytes().to_vec());
    assert_eq!(s.char_len(), 14);
}

#[test]
fn char_len_emoji() {
    let s = Utf8String::new("💎".as_bytes().to_vec());
    assert_eq!(s.char_len(), 1);
    let s = Utf8String::new("💎🦀🎉".as_bytes().to_vec());
    assert_eq!(s.char_len(), 3);
    let s = Utf8String::new("a💎b🦀c🎉d".as_bytes().to_vec());
    assert_eq!(s.char_len(), 7);
    // with invalid UTF-8 bytes
    let s = Utf8String::new(b"a\xF0\x9F\x92\x8E\xFFabc".to_vec());
    assert_eq!(s.char_len(), 6);
}

#[test]
fn char_len_unicode_replacement_character() {
    let s = Utf8String::new("�".as_bytes().to_vec());
    assert_eq!(s.char_len(), 1);
    let s = Utf8String::new("���".as_bytes().to_vec());
    assert_eq!(s.char_len(), 3);
    let s = Utf8String::new("a�b�c�d".as_bytes().to_vec());
    assert_eq!(s.char_len(), 7);
    let s = Utf8String::new("�💎b🦀c🎉�".as_bytes().to_vec());
    assert_eq!(s.char_len(), 7);
    // with invalid UFF-8 bytes
    let s = Utf8String::new(b"\xEF\xBF\xBD\xF0\x9F\x92\x8E\xFF\xEF\xBF\xBDab".to_vec());
    assert_eq!(s.char_len(), 6);
    let s = Utf8String::new(REPLACEMENT_CHARACTER_BYTES.to_vec());
    assert_eq!(s.char_len(), 1);
}

#[test]
fn char_len_nul_byte() {
    let s = Utf8String::new(b"\x00".to_vec());
    assert_eq!(s.char_len(), 1);
    let s = Utf8String::new(b"abc\x00".to_vec());
    assert_eq!(s.char_len(), 4);
    let s = Utf8String::new(b"abc\x00xyz".to_vec());
    assert_eq!(s.char_len(), 7);
}

#[test]
fn char_len_invalid_utf8_byte_sequences() {
    let s = Utf8String::new(b"\x00\x00\xD8\x00".to_vec());
    assert_eq!(s.char_len(), 4);
    let s = Utf8String::new(b"\xFF\xFE".to_vec());
    assert_eq!(s.char_len(), 2);
}

#[test]
fn char_len_binary() {
    let bytes = &[
        0xB3, 0x7E, 0x39, 0x70, 0x8E, 0xFD, 0xBB, 0x75, 0x62, 0x77, 0xE7, 0xDF, 0x6F, 0xF2, 0x76, 0x27, 0x81,
        0x9A, 0x3A, 0x9D, 0xED, 0x6B, 0x4F, 0xAE, 0xC4, 0xE7, 0xA1, 0x66, 0x11, 0xF1, 0x08, 0x1C,
    ];
    let s = Utf8String::new(bytes.to_vec());
    assert_eq!(s.char_len(), 32);
    // Mixed binary and ASCII
    let bytes = &[
        b'?', b'!', b'a', b'b', b'c', 0xFD, 0xBB, 0x75, 0x62, 0x77, 0xE7, 0xDF, 0x6F, 0xF2, 0x76, 0x27, 0x81,
        0x9A, 0x3A, 0x9D, 0xED, 0x6B, 0x4F, 0xAE, 0xC4, 0xE7, 0xA1, 0x66, 0x11, 0xF1, 0x08, 0x1C,
    ];
    let s = Utf8String::new(bytes.to_vec());
    assert_eq!(s.char_len(), 32);
}

#[test]
fn char_len_mixed_ascii_emoji_invalid_bytes() {
    // ```
    // [2.6.3] > s = "🦀abc💎\xff"
    // => "🦀abc💎\xFF"
    // [2.6.3] > s.length
    // => 6
    // [2.6.3] > puts s.bytes.map{|b| "\\x#{b.to_s(16).upcase}"}.join
    // \xF0\x9F\xA6\x80\x61\x62\x63\xF0\x9F\x92\x8E\xFF
    // ```
    let s = Utf8String::new(b"\xF0\x9F\xA6\x80\x61\x62\x63\xF0\x9F\x92\x8E\xFF".to_vec());
    assert_eq!(s.char_len(), 6);
}

#[test]
fn char_len_utf8() {
    // https://github.com/minimaxir/big-list-of-naughty-strings/blob/894882e7/blns.txt#L147-L157
    let s = Utf8String::new("Ω≈ç√∫˜µ≤≥÷".as_bytes().to_vec());
    assert_eq!(s.char_len(), 10);
    let s = Utf8String::new("åß∂ƒ©˙∆˚¬…æ".as_bytes().to_vec());
    assert_eq!(s.char_len(), 11);
    let s = Utf8String::new("œ∑´®†¥¨ˆøπ“‘".as_bytes().to_vec());
    assert_eq!(s.char_len(), 12);
    let s = Utf8String::new("¡™£¢∞§¶•ªº–≠".as_bytes().to_vec());
    assert_eq!(s.char_len(), 12);
    let s = Utf8String::new("¸˛Ç◊ı˜Â¯˘¿".as_bytes().to_vec());
    assert_eq!(s.char_len(), 10);
    let s = Utf8String::new("ÅÍÎÏ˝ÓÔÒÚÆ☃".as_bytes().to_vec());
    assert_eq!(s.char_len(), 12);
    let s = Utf8String::new("Œ„´‰ˇÁ¨ˆØ∏”’".as_bytes().to_vec());
    assert_eq!(s.char_len(), 12);
    let s = Utf8String::new("`⁄€‹›ﬁﬂ‡°·‚—±".as_bytes().to_vec());
    assert_eq!(s.char_len(), 13);
    let s = Utf8String::new("⅛⅜⅝⅞".as_bytes().to_vec());
    assert_eq!(s.char_len(), 4);
    let s = Utf8String::new("ЁЂЃЄЅІЇЈЉЊЋЌЍЎЏАБВГДЕЖЗИЙКЛМНОПРСТУФХЦЧШЩЪЫЬЭЮЯабвгдежзийклмнопрстуфхцчшщъыьэюя".as_bytes().to_vec());
    assert_eq!(s.char_len(), 79);
}

#[test]
fn char_len_vmware_super_string() {
    // A super string recommended by VMware Inc. Globalization Team: can
    // effectively cause rendering issues or character-length issues to
    // validate product globalization readiness.
    //
    // https://github.com/minimaxir/big-list-of-naughty-strings/blob/894882e7/blns.txt#L202-L224
    let s = Utf8String::new("表ポあA鷗ŒéＢ逍Üßªąñ丂㐀𠀀".as_bytes().to_vec());
    assert_eq!(s.char_len(), 17);
}

#[test]
fn char_len_two_byte_chars() {
    // https://github.com/minimaxir/big-list-of-naughty-strings/blob/894882e7/blns.txt#L188-L196
    let s = Utf8String::new("田中さんにあげて下さい".as_bytes().to_vec());
    assert_eq!(s.char_len(), 11);
    let s = Utf8String::new("パーティーへ行かないか".as_bytes().to_vec());
    assert_eq!(s.char_len(), 11);
    let s = Utf8String::new("和製漢語".as_bytes().to_vec());
    assert_eq!(s.char_len(), 4);
    let s = Utf8String::new("部落格".as_bytes().to_vec());
    assert_eq!(s.char_len(), 3);
    let s = Utf8String::new("사회과학원 어학연구소".as_bytes().to_vec());
    assert_eq!(s.char_len(), 11);
    let s = Utf8String::new("찦차를 타고 온 펲시맨과 쑛다리 똠방각하".as_bytes().to_vec());
    assert_eq!(s.char_len(), 22);
    let s = Utf8String::new("社會科學院語學研究所".as_bytes().to_vec());
    assert_eq!(s.char_len(), 10);
    let s = Utf8String::new("울란바토르".as_bytes().to_vec());
    assert_eq!(s.char_len(), 5);
    let s = Utf8String::new("𠜎𠜱𠝹𠱓𠱸𠲖𠳏".as_bytes().to_vec());
    assert_eq!(s.char_len(), 7);
}

#[test]
fn char_len_space_chars() {
    // Whitespace: all the characters with category `Zs`, `Zl`, or `Zp` (in Unicode
    // version 8.0.0), plus `U+0009 (HT)`, `U+000B (VT)`, `U+000C (FF)`, `U+0085 (NEL)`,
    // and `U+200B` (ZERO WIDTH SPACE), which are in the C categories but are often
    // treated as whitespace in some contexts.
    //
    // This file unfortunately cannot express strings containing
    // `U+0000`, `U+000A`, or `U+000D` (`NUL`, `LF`, `CR`).
    //
    // The next line may appear to be blank or mojibake in some viewers.
    //
    // The next line may be flagged for "trailing whitespace" in some viewers.
    //
    // https://github.com/minimaxir/big-list-of-naughty-strings/blob/894882e7/blns.txt#L131
    let bytes = "\u{9}\u{B}\u{C}\u{20}\u{85}\u{20}\u{1680}\u{2002}\u{2003}\u{2002}\u{2003}\u{2004}\u{2005}\u{2006}\u{2007}\u{2008}\u{2009}\u{200A}\u{200B}\u{2028}\u{2029}\u{202F}\u{205F}\u{3000}\u{A}";
    let s = Utf8String::new(bytes.as_bytes().to_vec());
    assert_eq!(s.char_len(), 25);
}

#[test]
fn casing_utf8_string_empty() {
    let mut s = Utf8String::new(b"".to_vec());

    s.make_capitalized();
    assert_eq!(s.as_slice(), "".as_bytes());

    s.make_lowercase();
    assert_eq!(s.as_slice(), "".as_bytes());

    s.make_uppercase();
    assert_eq!(s.as_slice(), "".as_bytes());
}

#[test]
fn casing_utf8_string_ascii() {
    let lower = Utf8String::new(b"abc".to_vec());
    let mid_upper = Utf8String::new(b"aBc".to_vec());
    let upper = Utf8String::new(b"ABC".to_vec());
    let long = Utf8String::new(b"aBC, 123, ABC, baby you and me girl".to_vec());

    let capitalize: fn(&Utf8String) -> Utf8String = |value: &Utf8String| {
        let mut value = value.clone();
        value.make_capitalized();
        value
    };
    let lowercase: fn(&Utf8String) -> Utf8String = |value: &Utf8String| {
        let mut value = value.clone();
        value.make_lowercase();
        value
    };
    let uppercase: fn(&Utf8String) -> Utf8String = |value: &Utf8String| {
        let mut value = value.clone();
        value.make_uppercase();
        value
    };

    assert_eq!(capitalize(&lower).as_slice(), "Abc".as_bytes());
    assert_eq!(capitalize(&mid_upper).as_slice(), "Abc".as_bytes());
    assert_eq!(capitalize(&upper).as_slice(), "Abc".as_bytes());
    assert_eq!(capitalize(&long).as_slice(), "Abc, 123, abc, baby you and me girl".as_bytes());

    assert_eq!(lowercase(&lower).as_slice(), "abc".as_bytes());
    assert_eq!(lowercase(&mid_upper).as_slice(), "abc".as_bytes());
    assert_eq!(lowercase(&upper).as_slice(), "abc".as_bytes());
    assert_eq!(lowercase(&long).as_slice(), "abc, 123, abc, baby you and me girl".as_bytes());

    assert_eq!(uppercase(&lower).as_slice(), "ABC".as_bytes());
    assert_eq!(uppercase(&mid_upper).as_slice(), "ABC".as_bytes());
    assert_eq!(uppercase(&upper).as_slice(), "ABC".as_bytes());
    assert_eq!(uppercase(&long).as_slice(), "ABC, 123, ABC, BABY YOU AND ME GIRL".as_bytes());
}

#[test]
fn casing_utf8_string_utf8() {
    // Capitalization of ß (SS) differs from MRI:
    //
    // ```console
    // [2.6.3] > "ß".capitalize
    // => "Ss"
    // ```
    let sharp_s = Utf8String::new("ß".as_bytes().to_vec());
    let tomorrow = Utf8String::new("αύριο".as_bytes().to_vec());
    let year = Utf8String::new("έτος".as_bytes().to_vec());
    // two-byte characters
    // https://github.com/minimaxir/big-list-of-naughty-strings/blob/894882e7/blns.txt#L198-L200
    let two_byte_chars = Utf8String::new("𐐜 𐐔𐐇𐐝𐐀𐐡𐐇𐐓 𐐙𐐊𐐡𐐝𐐓/𐐝𐐇𐐗𐐊𐐤𐐔 𐐒𐐋𐐗 𐐒𐐌 𐐜 𐐡𐐀𐐖𐐇𐐤𐐓𐐝 𐐱𐑂 𐑄 𐐔𐐇𐐝𐐀𐐡𐐇𐐓 𐐏𐐆𐐅𐐤𐐆𐐚𐐊𐐡𐐝𐐆𐐓𐐆".as_bytes().to_vec());
    // Changes length when case changes
    // https://github.com/minimaxir/big-list-of-naughty-strings/blob/894882e7/blns.txt#L226-L232
    let varying_length = Utf8String::new("zȺȾ".as_bytes().to_vec());
    // There doesn't appear to be any RTL scripts that have cases, but might as well make sure
    let rtl = Utf8String::new("مرحبا الخرشوف".as_bytes().to_vec());

    let capitalize: fn(&Utf8String) -> Utf8String = |value: &Utf8String| {
        let mut value = value.clone();
        value.make_capitalized();
        value
    };
    let lowercase: fn(&Utf8String) -> Utf8String = |value: &Utf8String| {
        let mut value = value.clone();
        value.make_lowercase();
        value
    };
    let uppercase: fn(&Utf8String) -> Utf8String = |value: &Utf8String| {
        let mut value = value.clone();
        value.make_uppercase();
        value
    };

    assert_eq!(capitalize(&sharp_s).as_slice(), "SS".as_bytes());
    assert_eq!(capitalize(&tomorrow).as_slice(), "Αύριο".as_bytes());
    assert_eq!(capitalize(&year).as_slice(), "Έτος".as_bytes());
    assert_eq!(capitalize(&two_byte_chars).as_slice(), "𐐜 𐐼𐐯𐑅𐐨𐑉𐐯𐐻 𐑁𐐲𐑉𐑅𐐻/𐑅𐐯𐐿𐐲𐑌𐐼 𐐺𐐳𐐿 𐐺𐐴 𐑄 𐑉𐐨𐐾𐐯𐑌𐐻𐑅 𐐱𐑂 𐑄 𐐼𐐯𐑅𐐨𐑉𐐯𐐻 𐐷𐐮𐐭𐑌𐐮𐑂𐐲𐑉𐑅𐐮𐐻𐐮".as_bytes());
    assert_eq!(capitalize(&varying_length).as_slice(), "Zⱥⱦ".as_bytes());
    assert_eq!(capitalize(&rtl).as_slice(), "مرحبا الخرشوف".as_bytes());

    assert_eq!(lowercase(&sharp_s).as_slice(), "ß".as_bytes());
    assert_eq!(lowercase(&tomorrow).as_slice(), "αύριο".as_bytes());
    assert_eq!(lowercase(&year).as_slice(), "έτος".as_bytes());
    assert_eq!(lowercase(&two_byte_chars).as_slice(), "𐑄 𐐼𐐯𐑅𐐨𐑉𐐯𐐻 𐑁𐐲𐑉𐑅𐐻/𐑅𐐯𐐿𐐲𐑌𐐼 𐐺𐐳𐐿 𐐺𐐴 𐑄 𐑉𐐨𐐾𐐯𐑌𐐻𐑅 𐐱𐑂 𐑄 𐐼𐐯𐑅𐐨𐑉𐐯𐐻 𐐷𐐮𐐭𐑌𐐮𐑂𐐲𐑉𐑅𐐮𐐻𐐮".as_bytes());
    assert_eq!(lowercase(&varying_length).as_slice(), "zⱥⱦ".as_bytes());
    assert_eq!(lowercase(&rtl).as_slice(), "مرحبا الخرشوف".as_bytes());

    assert_eq!(uppercase(&sharp_s).as_slice(), "SS".as_bytes());
    assert_eq!(uppercase(&tomorrow).as_slice(), "ΑΎΡΙΟ".as_bytes());
    assert_eq!(uppercase(&year).as_slice(), "ΈΤΟΣ".as_bytes());
    assert_eq!(uppercase(&two_byte_chars).as_slice(), "𐐜 𐐔𐐇𐐝𐐀𐐡𐐇𐐓 𐐙𐐊𐐡𐐝𐐓/𐐝𐐇𐐗𐐊𐐤𐐔 𐐒𐐋𐐗 𐐒𐐌 𐐜 𐐡𐐀𐐖𐐇𐐤𐐓𐐝 𐐉𐐚 𐐜 𐐔𐐇𐐝𐐀𐐡𐐇𐐓 𐐏𐐆𐐅𐐤𐐆𐐚𐐊𐐡𐐝𐐆𐐓𐐆".as_bytes());
    assert_eq!(uppercase(&varying_length).as_slice(), "ZȺȾ".as_bytes());
    assert_eq!(uppercase(&rtl).as_slice(), "مرحبا الخرشوف".as_bytes());
}

#[test]
fn casing_utf8_string_invalid_utf8() {
    let mut s = Utf8String::new(b"\xFF\xFE".to_vec());

    s.make_capitalized();
    assert_eq!(s.as_slice(), &b"\xFF\xFE"[..]);

    s.make_lowercase();
    assert_eq!(s.as_slice(), &b"\xFF\xFE"[..]);

    s.make_uppercase();
    assert_eq!(s.as_slice(), &b"\xFF\xFE"[..]);
}

#[test]
fn casing_utf8_string_unicode_replacement_character() {
    let mut s = Utf8String::new("�".as_bytes().to_vec());

    s.make_capitalized();
    assert_eq!(s.as_slice(), "�".as_bytes());

    s.make_lowercase();
    assert_eq!(s.as_slice(), "�".as_bytes());

    s.make_uppercase();
    assert_eq!(s.as_slice(), "�".as_bytes());
}

#[test]
fn chr_does_not_return_more_than_one_byte_for_invalid_utf8() {
    // ```ruby
    // [3.0.1] > "\xF0\x9F\x87".chr
    // => "\xF0"
    // ```
    //
    // Per `bstr`:
    //
    // The bytes `\xF0\x9F\x87` could lead to a valid UTF-8 sequence, but 3 of them
    // on their own are invalid. Only one replacement codepoint is substituted,
    // which demonstrates the "substitution of maximal subparts" strategy.
    let s = Utf8String::new(b"\xF0\x9F\x87".to_vec());
    assert_eq!(s.chr(), b"\xF0");
}
