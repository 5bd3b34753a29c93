use vstd::prelude::*;

verus! {

/// Whether `c` is an ASCII letter or digit.
pub open spec fn is_ascii_alnum(c: char) -> bool {
    ('a' <= c && c <= 'z') || ('A' <= c && c <= 'Z') || ('0' <= c && c <= '9')
}

/// What `char::is_alphanumeric` answers for a character outside ASCII
/// (Unicode Alphabetic or Numeric).
pub uninterp spec fn unicode_alphanumeric(c: char) -> bool;

/// Letters and digits: on ASCII exactly the ASCII letters and digits.
pub open spec fn alphanumeric(c: char) -> bool {
    if (c as u32) < 128 {
        is_ascii_alnum(c)
    } else {
        unicode_alphanumeric(c)
    }
}

/// The Unicode White_Space property: tab, line feed, vertical tab, form feed,
/// carriage return, space, next line, no-break space, ogham space mark, the
/// spaces U+2000 to U+200A, line and paragraph separator, narrow no-break space,
/// medium mathematical space and ideographic space.
pub open spec fn unicode_whitespace(c: char) -> bool {
    let x = c as u32;
    ||| 0x9 <= x <= 0xD
    ||| x == 0x20
    ||| x == 0x85
    ||| x == 0xA0
    ||| x == 0x1680
    ||| 0x2000 <= x <= 0x200A
    ||| x == 0x2028
    ||| x == 0x2029
    ||| x == 0x202F
    ||| x == 0x205F
    ||| x == 0x3000
}

/// A Unicode combining mark (General_Category Mn, Mc or Me), by the ranges of
/// Unicode 14.0.0.
#[verifier::opaque]
pub open spec fn combining_mark(c: char) -> bool {
    let x = c as u32;
    ||| 0x300 <= x <= 0x36F
    ||| 0x483 <= x <= 0x489
    ||| 0x591 <= x <= 0x5BD
    ||| x == 0x5BF
    ||| 0x5C1 <= x <= 0x5C2
    ||| 0x5C4 <= x <= 0x5C5
    ||| x == 0x5C7
    ||| 0x610 <= x <= 0x61A
    ||| 0x64B <= x <= 0x65F
    ||| x == 0x670
    ||| 0x6D6 <= x <= 0x6DC
    ||| 0x6DF <= x <= 0x6E4
    ||| 0x6E7 <= x <= 0x6E8
    ||| 0x6EA <= x <= 0x6ED
    ||| x == 0x711
    ||| 0x730 <= x <= 0x74A
    ||| 0x7A6 <= x <= 0x7B0
    ||| 0x7EB <= x <= 0x7F3
    ||| x == 0x7FD
    ||| 0x816 <= x <= 0x819
    ||| 0x81B <= x <= 0x823
    ||| 0x825 <= x <= 0x827
    ||| 0x829 <= x <= 0x82D
    ||| 0x859 <= x <= 0x85B
    ||| 0x898 <= x <= 0x89F
    ||| 0x8CA <= x <= 0x8E1
    ||| 0x8E3 <= x <= 0x903
    ||| 0x93A <= x <= 0x93C
    ||| 0x93E <= x <= 0x94F
    ||| 0x951 <= x <= 0x957
    ||| 0x962 <= x <= 0x963
    ||| 0x981 <= x <= 0x983
    ||| x == 0x9BC
    ||| 0x9BE <= x <= 0x9C4
    ||| 0x9C7 <= x <= 0x9C8
    ||| 0x9CB <= x <= 0x9CD
    ||| x == 0x9D7
    ||| 0x9E2 <= x <= 0x9E3
    ||| x == 0x9FE
    ||| 0xA01 <= x <= 0xA03
    ||| x == 0xA3C
    ||| 0xA3E <= x <= 0xA42
    ||| 0xA47 <= x <= 0xA48
    ||| 0xA4B <= x <= 0xA4D
    ||| x == 0xA51
    ||| 0xA70 <= x <= 0xA71
    ||| x == 0xA75
    ||| 0xA81 <= x <= 0xA83
    ||| x == 0xABC
    ||| 0xABE <= x <= 0xAC5
    ||| 0xAC7 <= x <= 0xAC9
    ||| 0xACB <= x <= 0xACD
    ||| 0xAE2 <= x <= 0xAE3
    ||| 0xAFA <= x <= 0xAFF
    ||| 0xB01 <= x <= 0xB03
    ||| x == 0xB3C
    ||| 0xB3E <= x <= 0xB44
    ||| 0xB47 <= x <= 0xB48
    ||| 0xB4B <= x <= 0xB4D
    ||| 0xB55 <= x <= 0xB57
    ||| 0xB62 <= x <= 0xB63
    ||| x == 0xB82
    ||| 0xBBE <= x <= 0xBC2
    ||| 0xBC6 <= x <= 0xBC8
    ||| 0xBCA <= x <= 0xBCD
    ||| x == 0xBD7
    ||| 0xC00 <= x <= 0xC04
    ||| x == 0xC3C
    ||| 0xC3E <= x <= 0xC44
    ||| 0xC46 <= x <= 0xC48
    ||| 0xC4A <= x <= 0xC4D
    ||| 0xC55 <= x <= 0xC56
    ||| 0xC62 <= x <= 0xC63
    ||| 0xC81 <= x <= 0xC83
    ||| x == 0xCBC
    ||| 0xCBE <= x <= 0xCC4
    ||| 0xCC6 <= x <= 0xCC8
    ||| 0xCCA <= x <= 0xCCD
    ||| 0xCD5 <= x <= 0xCD6
    ||| 0xCE2 <= x <= 0xCE3
    ||| 0xD00 <= x <= 0xD03
    ||| 0xD3B <= x <= 0xD3C
    ||| 0xD3E <= x <= 0xD44
    ||| 0xD46 <= x <= 0xD48
    ||| 0xD4A <= x <= 0xD4D
    ||| x == 0xD57
    ||| 0xD62 <= x <= 0xD63
    ||| 0xD81 <= x <= 0xD83
    ||| x == 0xDCA
    ||| 0xDCF <= x <= 0xDD4
    ||| x == 0xDD6
    ||| 0xDD8 <= x <= 0xDDF
    ||| 0xDF2 <= x <= 0xDF3
    ||| x == 0xE31
    ||| 0xE34 <= x <= 0xE3A
    ||| 0xE47 <= x <= 0xE4E
    ||| x == 0xEB1
    ||| 0xEB4 <= x <= 0xEBC
    ||| 0xEC8 <= x <= 0xECD
    ||| 0xF18 <= x <= 0xF19
    ||| x == 0xF35
    ||| x == 0xF37
    ||| x == 0xF39
    ||| 0xF3E <= x <= 0xF3F
    ||| 0xF71 <= x <= 0xF84
    ||| 0xF86 <= x <= 0xF87
    ||| 0xF8D <= x <= 0xF97
    ||| 0xF99 <= x <= 0xFBC
    ||| x == 0xFC6
    ||| 0x102B <= x <= 0x103E
    ||| 0x1056 <= x <= 0x1059
    ||| 0x105E <= x <= 0x1060
    ||| 0x1062 <= x <= 0x1064
    ||| 0x1067 <= x <= 0x106D
    ||| 0x1071 <= x <= 0x1074
    ||| 0x1082 <= x <= 0x108D
    ||| x == 0x108F
    ||| 0x109A <= x <= 0x109D
    ||| 0x135D <= x <= 0x135F
    ||| 0x1712 <= x <= 0x1715
    ||| 0x1732 <= x <= 0x1734
    ||| 0x1752 <= x <= 0x1753
    ||| 0x1772 <= x <= 0x1773
    ||| 0x17B4 <= x <= 0x17D3
    ||| x == 0x17DD
    ||| 0x180B <= x <= 0x180D
    ||| x == 0x180F
    ||| 0x1885 <= x <= 0x1886
    ||| x == 0x18A9
    ||| 0x1920 <= x <= 0x192B
    ||| 0x1930 <= x <= 0x193B
    ||| 0x1A17 <= x <= 0x1A1B
    ||| 0x1A55 <= x <= 0x1A5E
    ||| 0x1A60 <= x <= 0x1A7C
    ||| x == 0x1A7F
    ||| 0x1AB0 <= x <= 0x1ACE
    ||| 0x1B00 <= x <= 0x1B04
    ||| 0x1B34 <= x <= 0x1B44
    ||| 0x1B6B <= x <= 0x1B73
    ||| 0x1B80 <= x <= 0x1B82
    ||| 0x1BA1 <= x <= 0x1BAD
    ||| 0x1BE6 <= x <= 0x1BF3
    ||| 0x1C24 <= x <= 0x1C37
    ||| 0x1CD0 <= x <= 0x1CD2
    ||| 0x1CD4 <= x <= 0x1CE8
    ||| x == 0x1CED
    ||| x == 0x1CF4
    ||| 0x1CF7 <= x <= 0x1CF9
    ||| 0x1DC0 <= x <= 0x1DFF
    ||| 0x20D0 <= x <= 0x20F0
    ||| 0x2CEF <= x <= 0x2CF1
    ||| x == 0x2D7F
    ||| 0x2DE0 <= x <= 0x2DFF
    ||| 0x302A <= x <= 0x302F
    ||| 0x3099 <= x <= 0x309A
    ||| 0xA66F <= x <= 0xA672
    ||| 0xA674 <= x <= 0xA67D
    ||| 0xA69E <= x <= 0xA69F
    ||| 0xA6F0 <= x <= 0xA6F1
    ||| x == 0xA802
    ||| x == 0xA806
    ||| x == 0xA80B
    ||| 0xA823 <= x <= 0xA827
    ||| x == 0xA82C
    ||| 0xA880 <= x <= 0xA881
    ||| 0xA8B4 <= x <= 0xA8C5
    ||| 0xA8E0 <= x <= 0xA8F1
    ||| x == 0xA8FF
    ||| 0xA926 <= x <= 0xA92D
    ||| 0xA947 <= x <= 0xA953
    ||| 0xA980 <= x <= 0xA983
    ||| 0xA9B3 <= x <= 0xA9C0
    ||| x == 0xA9E5
    ||| 0xAA29 <= x <= 0xAA36
    ||| x == 0xAA43
    ||| 0xAA4C <= x <= 0xAA4D
    ||| 0xAA7B <= x <= 0xAA7D
    ||| x == 0xAAB0
    ||| 0xAAB2 <= x <= 0xAAB4
    ||| 0xAAB7 <= x <= 0xAAB8
    ||| 0xAABE <= x <= 0xAABF
    ||| x == 0xAAC1
    ||| 0xAAEB <= x <= 0xAAEF
    ||| 0xAAF5 <= x <= 0xAAF6
    ||| 0xABE3 <= x <= 0xABEA
    ||| 0xABEC <= x <= 0xABED
    ||| x == 0xFB1E
    ||| 0xFE00 <= x <= 0xFE0F
    ||| 0xFE20 <= x <= 0xFE2F
    ||| x == 0x101FD
    ||| x == 0x102E0
    ||| 0x10376 <= x <= 0x1037A
    ||| 0x10A01 <= x <= 0x10A03
    ||| 0x10A05 <= x <= 0x10A06
    ||| 0x10A0C <= x <= 0x10A0F
    ||| 0x10A38 <= x <= 0x10A3A
    ||| x == 0x10A3F
    ||| 0x10AE5 <= x <= 0x10AE6
    ||| 0x10D24 <= x <= 0x10D27
    ||| 0x10EAB <= x <= 0x10EAC
    ||| 0x10F46 <= x <= 0x10F50
    ||| 0x10F82 <= x <= 0x10F85
    ||| 0x11000 <= x <= 0x11002
    ||| 0x11038 <= x <= 0x11046
    ||| x == 0x11070
    ||| 0x11073 <= x <= 0x11074
    ||| 0x1107F <= x <= 0x11082
    ||| 0x110B0 <= x <= 0x110BA
    ||| x == 0x110C2
    ||| 0x11100 <= x <= 0x11102
    ||| 0x11127 <= x <= 0x11134
    ||| 0x11145 <= x <= 0x11146
    ||| x == 0x11173
    ||| 0x11180 <= x <= 0x11182
    ||| 0x111B3 <= x <= 0x111C0
    ||| 0x111C9 <= x <= 0x111CC
    ||| 0x111CE <= x <= 0x111CF
    ||| 0x1122C <= x <= 0x11237
    ||| x == 0x1123E
    ||| 0x112DF <= x <= 0x112EA
    ||| 0x11300 <= x <= 0x11303
    ||| 0x1133B <= x <= 0x1133C
    ||| 0x1133E <= x <= 0x11344
    ||| 0x11347 <= x <= 0x11348
    ||| 0x1134B <= x <= 0x1134D
    ||| x == 0x11357
    ||| 0x11362 <= x <= 0x11363
    ||| 0x11366 <= x <= 0x1136C
    ||| 0x11370 <= x <= 0x11374
    ||| 0x11435 <= x <= 0x11446
    ||| x == 0x1145E
    ||| 0x114B0 <= x <= 0x114C3
    ||| 0x115AF <= x <= 0x115B5
    ||| 0x115B8 <= x <= 0x115C0
    ||| 0x115DC <= x <= 0x115DD
    ||| 0x11630 <= x <= 0x11640
    ||| 0x116AB <= x <= 0x116B7
    ||| 0x1171D <= x <= 0x1172B
    ||| 0x1182C <= x <= 0x1183A
    ||| 0x11930 <= x <= 0x11935
    ||| 0x11937 <= x <= 0x11938
    ||| 0x1193B <= x <= 0x1193E
    ||| x == 0x11940
    ||| 0x11942 <= x <= 0x11943
    ||| 0x119D1 <= x <= 0x119D7
    ||| 0x119DA <= x <= 0x119E0
    ||| x == 0x119E4
    ||| 0x11A01 <= x <= 0x11A0A
    ||| 0x11A33 <= x <= 0x11A39
    ||| 0x11A3B <= x <= 0x11A3E
    ||| x == 0x11A47
    ||| 0x11A51 <= x <= 0x11A5B
    ||| 0x11A8A <= x <= 0x11A99
    ||| 0x11C2F <= x <= 0x11C36
    ||| 0x11C38 <= x <= 0x11C3F
    ||| 0x11C92 <= x <= 0x11CA7
    ||| 0x11CA9 <= x <= 0x11CB6
    ||| 0x11D31 <= x <= 0x11D36
    ||| x == 0x11D3A
    ||| 0x11D3C <= x <= 0x11D3D
    ||| 0x11D3F <= x <= 0x11D45
    ||| x == 0x11D47
    ||| 0x11D8A <= x <= 0x11D8E
    ||| 0x11D90 <= x <= 0x11D91
    ||| 0x11D93 <= x <= 0x11D97
    ||| 0x11EF3 <= x <= 0x11EF6
    ||| 0x16AF0 <= x <= 0x16AF4
    ||| 0x16B30 <= x <= 0x16B36
    ||| x == 0x16F4F
    ||| 0x16F51 <= x <= 0x16F87
    ||| 0x16F8F <= x <= 0x16F92
    ||| x == 0x16FE4
    ||| 0x16FF0 <= x <= 0x16FF1
    ||| 0x1BC9D <= x <= 0x1BC9E
    ||| 0x1CF00 <= x <= 0x1CF2D
    ||| 0x1CF30 <= x <= 0x1CF46
    ||| 0x1D165 <= x <= 0x1D169
    ||| 0x1D16D <= x <= 0x1D172
    ||| 0x1D17B <= x <= 0x1D182
    ||| 0x1D185 <= x <= 0x1D18B
    ||| 0x1D1AA <= x <= 0x1D1AD
    ||| 0x1D242 <= x <= 0x1D244
    ||| 0x1DA00 <= x <= 0x1DA36
    ||| 0x1DA3B <= x <= 0x1DA6C
    ||| x == 0x1DA75
    ||| x == 0x1DA84
    ||| 0x1DA9B <= x <= 0x1DA9F
    ||| 0x1DAA1 <= x <= 0x1DAAF
    ||| 0x1E000 <= x <= 0x1E006
    ||| 0x1E008 <= x <= 0x1E018
    ||| 0x1E01B <= x <= 0x1E021
    ||| 0x1E023 <= x <= 0x1E024
    ||| 0x1E026 <= x <= 0x1E02A
    ||| 0x1E130 <= x <= 0x1E136
    ||| x == 0x1E2AE
    ||| 0x1E2EC <= x <= 0x1E2EF
    ||| 0x1E8D0 <= x <= 0x1E8D6
    ||| 0x1E944 <= x <= 0x1E94A
    ||| 0xE0100 <= x <= 0xE01EF
}

/// Every combining mark lies at or above U+0300, outside ASCII.
pub proof fn lemma_combining_mark_above_ascii(c: char)
    ensures
        combining_mark(c) ==> (c as u32) >= 0x300,
{
    reveal(combining_mark);
}

/// Whether `c` is a Unicode combining mark.
pub fn is_combining_mark(c: char) -> (r: bool)
    ensures
        r == combining_mark(c),
{
    proof {
        reveal(combining_mark);
    }
    let x = c as u32;
    (0x300 <= x && x <= 0x36F)
        || (0x483 <= x && x <= 0x489)
        || (0x591 <= x && x <= 0x5BD)
        || (x == 0x5BF)
        || (0x5C1 <= x && x <= 0x5C2)
        || (0x5C4 <= x && x <= 0x5C5)
        || (x == 0x5C7)
        || (0x610 <= x && x <= 0x61A)
        || (0x64B <= x && x <= 0x65F)
        || (x == 0x670)
        || (0x6D6 <= x && x <= 0x6DC)
        || (0x6DF <= x && x <= 0x6E4)
        || (0x6E7 <= x && x <= 0x6E8)
        || (0x6EA <= x && x <= 0x6ED)
        || (x == 0x711)
        || (0x730 <= x && x <= 0x74A)
        || (0x7A6 <= x && x <= 0x7B0)
        || (0x7EB <= x && x <= 0x7F3)
        || (x == 0x7FD)
        || (0x816 <= x && x <= 0x819)
        || (0x81B <= x && x <= 0x823)
        || (0x825 <= x && x <= 0x827)
        || (0x829 <= x && x <= 0x82D)
        || (0x859 <= x && x <= 0x85B)
        || (0x898 <= x && x <= 0x89F)
        || (0x8CA <= x && x <= 0x8E1)
        || (0x8E3 <= x && x <= 0x903)
        || (0x93A <= x && x <= 0x93C)
        || (0x93E <= x && x <= 0x94F)
        || (0x951 <= x && x <= 0x957)
        || (0x962 <= x && x <= 0x963)
        || (0x981 <= x && x <= 0x983)
        || (x == 0x9BC)
        || (0x9BE <= x && x <= 0x9C4)
        || (0x9C7 <= x && x <= 0x9C8)
        || (0x9CB <= x && x <= 0x9CD)
        || (x == 0x9D7)
        || (0x9E2 <= x && x <= 0x9E3)
        || (x == 0x9FE)
        || (0xA01 <= x && x <= 0xA03)
        || (x == 0xA3C)
        || (0xA3E <= x && x <= 0xA42)
        || (0xA47 <= x && x <= 0xA48)
        || (0xA4B <= x && x <= 0xA4D)
        || (x == 0xA51)
        || (0xA70 <= x && x <= 0xA71)
        || (x == 0xA75)
        || (0xA81 <= x && x <= 0xA83)
        || (x == 0xABC)
        || (0xABE <= x && x <= 0xAC5)
        || (0xAC7 <= x && x <= 0xAC9)
        || (0xACB <= x && x <= 0xACD)
        || (0xAE2 <= x && x <= 0xAE3)
        || (0xAFA <= x && x <= 0xAFF)
        || (0xB01 <= x && x <= 0xB03)
        || (x == 0xB3C)
        || (0xB3E <= x && x <= 0xB44)
        || (0xB47 <= x && x <= 0xB48)
        || (0xB4B <= x && x <= 0xB4D)
        || (0xB55 <= x && x <= 0xB57)
        || (0xB62 <= x && x <= 0xB63)
        || (x == 0xB82)
        || (0xBBE <= x && x <= 0xBC2)
        || (0xBC6 <= x && x <= 0xBC8)
        || (0xBCA <= x && x <= 0xBCD)
        || (x == 0xBD7)
        || (0xC00 <= x && x <= 0xC04)
        || (x == 0xC3C)
        || (0xC3E <= x && x <= 0xC44)
        || (0xC46 <= x && x <= 0xC48)
        || (0xC4A <= x && x <= 0xC4D)
        || (0xC55 <= x && x <= 0xC56)
        || (0xC62 <= x && x <= 0xC63)
        || (0xC81 <= x && x <= 0xC83)
        || (x == 0xCBC)
        || (0xCBE <= x && x <= 0xCC4)
        || (0xCC6 <= x && x <= 0xCC8)
        || (0xCCA <= x && x <= 0xCCD)
        || (0xCD5 <= x && x <= 0xCD6)
        || (0xCE2 <= x && x <= 0xCE3)
        || (0xD00 <= x && x <= 0xD03)
        || (0xD3B <= x && x <= 0xD3C)
        || (0xD3E <= x && x <= 0xD44)
        || (0xD46 <= x && x <= 0xD48)
        || (0xD4A <= x && x <= 0xD4D)
        || (x == 0xD57)
        || (0xD62 <= x && x <= 0xD63)
        || (0xD81 <= x && x <= 0xD83)
        || (x == 0xDCA)
        || (0xDCF <= x && x <= 0xDD4)
        || (x == 0xDD6)
        || (0xDD8 <= x && x <= 0xDDF)
        || (0xDF2 <= x && x <= 0xDF3)
        || (x == 0xE31)
        || (0xE34 <= x && x <= 0xE3A)
        || (0xE47 <= x && x <= 0xE4E)
        || (x == 0xEB1)
        || (0xEB4 <= x && x <= 0xEBC)
        || (0xEC8 <= x && x <= 0xECD)
        || (0xF18 <= x && x <= 0xF19)
        || (x == 0xF35)
        || (x == 0xF37)
        || (x == 0xF39)
        || (0xF3E <= x && x <= 0xF3F)
        || (0xF71 <= x && x <= 0xF84)
        || (0xF86 <= x && x <= 0xF87)
        || (0xF8D <= x && x <= 0xF97)
        || (0xF99 <= x && x <= 0xFBC)
        || (x == 0xFC6)
        || (0x102B <= x && x <= 0x103E)
        || (0x1056 <= x && x <= 0x1059)
        || (0x105E <= x && x <= 0x1060)
        || (0x1062 <= x && x <= 0x1064)
        || (0x1067 <= x && x <= 0x106D)
        || (0x1071 <= x && x <= 0x1074)
        || (0x1082 <= x && x <= 0x108D)
        || (x == 0x108F)
        || (0x109A <= x && x <= 0x109D)
        || (0x135D <= x && x <= 0x135F)
        || (0x1712 <= x && x <= 0x1715)
        || (0x1732 <= x && x <= 0x1734)
        || (0x1752 <= x && x <= 0x1753)
        || (0x1772 <= x && x <= 0x1773)
        || (0x17B4 <= x && x <= 0x17D3)
        || (x == 0x17DD)
        || (0x180B <= x && x <= 0x180D)
        || (x == 0x180F)
        || (0x1885 <= x && x <= 0x1886)
        || (x == 0x18A9)
        || (0x1920 <= x && x <= 0x192B)
        || (0x1930 <= x && x <= 0x193B)
        || (0x1A17 <= x && x <= 0x1A1B)
        || (0x1A55 <= x && x <= 0x1A5E)
        || (0x1A60 <= x && x <= 0x1A7C)
        || (x == 0x1A7F)
        || (0x1AB0 <= x && x <= 0x1ACE)
        || (0x1B00 <= x && x <= 0x1B04)
        || (0x1B34 <= x && x <= 0x1B44)
        || (0x1B6B <= x && x <= 0x1B73)
        || (0x1B80 <= x && x <= 0x1B82)
        || (0x1BA1 <= x && x <= 0x1BAD)
        || (0x1BE6 <= x && x <= 0x1BF3)
        || (0x1C24 <= x && x <= 0x1C37)
        || (0x1CD0 <= x && x <= 0x1CD2)
        || (0x1CD4 <= x && x <= 0x1CE8)
        || (x == 0x1CED)
        || (x == 0x1CF4)
        || (0x1CF7 <= x && x <= 0x1CF9)
        || (0x1DC0 <= x && x <= 0x1DFF)
        || (0x20D0 <= x && x <= 0x20F0)
        || (0x2CEF <= x && x <= 0x2CF1)
        || (x == 0x2D7F)
        || (0x2DE0 <= x && x <= 0x2DFF)
        || (0x302A <= x && x <= 0x302F)
        || (0x3099 <= x && x <= 0x309A)
        || (0xA66F <= x && x <= 0xA672)
        || (0xA674 <= x && x <= 0xA67D)
        || (0xA69E <= x && x <= 0xA69F)
        || (0xA6F0 <= x && x <= 0xA6F1)
        || (x == 0xA802)
        || (x == 0xA806)
        || (x == 0xA80B)
        || (0xA823 <= x && x <= 0xA827)
        || (x == 0xA82C)
        || (0xA880 <= x && x <= 0xA881)
        || (0xA8B4 <= x && x <= 0xA8C5)
        || (0xA8E0 <= x && x <= 0xA8F1)
        || (x == 0xA8FF)
        || (0xA926 <= x && x <= 0xA92D)
        || (0xA947 <= x && x <= 0xA953)
        || (0xA980 <= x && x <= 0xA983)
        || (0xA9B3 <= x && x <= 0xA9C0)
        || (x == 0xA9E5)
        || (0xAA29 <= x && x <= 0xAA36)
        || (x == 0xAA43)
        || (0xAA4C <= x && x <= 0xAA4D)
        || (0xAA7B <= x && x <= 0xAA7D)
        || (x == 0xAAB0)
        || (0xAAB2 <= x && x <= 0xAAB4)
        || (0xAAB7 <= x && x <= 0xAAB8)
        || (0xAABE <= x && x <= 0xAABF)
        || (x == 0xAAC1)
        || (0xAAEB <= x && x <= 0xAAEF)
        || (0xAAF5 <= x && x <= 0xAAF6)
        || (0xABE3 <= x && x <= 0xABEA)
        || (0xABEC <= x && x <= 0xABED)
        || (x == 0xFB1E)
        || (0xFE00 <= x && x <= 0xFE0F)
        || (0xFE20 <= x && x <= 0xFE2F)
        || (x == 0x101FD)
        || (x == 0x102E0)
        || (0x10376 <= x && x <= 0x1037A)
        || (0x10A01 <= x && x <= 0x10A03)
        || (0x10A05 <= x && x <= 0x10A06)
        || (0x10A0C <= x && x <= 0x10A0F)
        || (0x10A38 <= x && x <= 0x10A3A)
        || (x == 0x10A3F)
        || (0x10AE5 <= x && x <= 0x10AE6)
        || (0x10D24 <= x && x <= 0x10D27)
        || (0x10EAB <= x && x <= 0x10EAC)
        || (0x10F46 <= x && x <= 0x10F50)
        || (0x10F82 <= x && x <= 0x10F85)
        || (0x11000 <= x && x <= 0x11002)
        || (0x11038 <= x && x <= 0x11046)
        || (x == 0x11070)
        || (0x11073 <= x && x <= 0x11074)
        || (0x1107F <= x && x <= 0x11082)
        || (0x110B0 <= x && x <= 0x110BA)
        || (x == 0x110C2)
        || (0x11100 <= x && x <= 0x11102)
        || (0x11127 <= x && x <= 0x11134)
        || (0x11145 <= x && x <= 0x11146)
        || (x == 0x11173)
        || (0x11180 <= x && x <= 0x11182)
        || (0x111B3 <= x && x <= 0x111C0)
        || (0x111C9 <= x && x <= 0x111CC)
        || (0x111CE <= x && x <= 0x111CF)
        || (0x1122C <= x && x <= 0x11237)
        || (x == 0x1123E)
        || (0x112DF <= x && x <= 0x112EA)
        || (0x11300 <= x && x <= 0x11303)
        || (0x1133B <= x && x <= 0x1133C)
        || (0x1133E <= x && x <= 0x11344)
        || (0x11347 <= x && x <= 0x11348)
        || (0x1134B <= x && x <= 0x1134D)
        || (x == 0x11357)
        || (0x11362 <= x && x <= 0x11363)
        || (0x11366 <= x && x <= 0x1136C)
        || (0x11370 <= x && x <= 0x11374)
        || (0x11435 <= x && x <= 0x11446)
        || (x == 0x1145E)
        || (0x114B0 <= x && x <= 0x114C3)
        || (0x115AF <= x && x <= 0x115B5)
        || (0x115B8 <= x && x <= 0x115C0)
        || (0x115DC <= x && x <= 0x115DD)
        || (0x11630 <= x && x <= 0x11640)
        || (0x116AB <= x && x <= 0x116B7)
        || (0x1171D <= x && x <= 0x1172B)
        || (0x1182C <= x && x <= 0x1183A)
        || (0x11930 <= x && x <= 0x11935)
        || (0x11937 <= x && x <= 0x11938)
        || (0x1193B <= x && x <= 0x1193E)
        || (x == 0x11940)
        || (0x11942 <= x && x <= 0x11943)
        || (0x119D1 <= x && x <= 0x119D7)
        || (0x119DA <= x && x <= 0x119E0)
        || (x == 0x119E4)
        || (0x11A01 <= x && x <= 0x11A0A)
        || (0x11A33 <= x && x <= 0x11A39)
        || (0x11A3B <= x && x <= 0x11A3E)
        || (x == 0x11A47)
        || (0x11A51 <= x && x <= 0x11A5B)
        || (0x11A8A <= x && x <= 0x11A99)
        || (0x11C2F <= x && x <= 0x11C36)
        || (0x11C38 <= x && x <= 0x11C3F)
        || (0x11C92 <= x && x <= 0x11CA7)
        || (0x11CA9 <= x && x <= 0x11CB6)
        || (0x11D31 <= x && x <= 0x11D36)
        || (x == 0x11D3A)
        || (0x11D3C <= x && x <= 0x11D3D)
        || (0x11D3F <= x && x <= 0x11D45)
        || (x == 0x11D47)
        || (0x11D8A <= x && x <= 0x11D8E)
        || (0x11D90 <= x && x <= 0x11D91)
        || (0x11D93 <= x && x <= 0x11D97)
        || (0x11EF3 <= x && x <= 0x11EF6)
        || (0x16AF0 <= x && x <= 0x16AF4)
        || (0x16B30 <= x && x <= 0x16B36)
        || (x == 0x16F4F)
        || (0x16F51 <= x && x <= 0x16F87)
        || (0x16F8F <= x && x <= 0x16F92)
        || (x == 0x16FE4)
        || (0x16FF0 <= x && x <= 0x16FF1)
        || (0x1BC9D <= x && x <= 0x1BC9E)
        || (0x1CF00 <= x && x <= 0x1CF2D)
        || (0x1CF30 <= x && x <= 0x1CF46)
        || (0x1D165 <= x && x <= 0x1D169)
        || (0x1D16D <= x && x <= 0x1D172)
        || (0x1D17B <= x && x <= 0x1D182)
        || (0x1D185 <= x && x <= 0x1D18B)
        || (0x1D1AA <= x && x <= 0x1D1AD)
        || (0x1D242 <= x && x <= 0x1D244)
        || (0x1DA00 <= x && x <= 0x1DA36)
        || (0x1DA3B <= x && x <= 0x1DA6C)
        || (x == 0x1DA75)
        || (x == 0x1DA84)
        || (0x1DA9B <= x && x <= 0x1DA9F)
        || (0x1DAA1 <= x && x <= 0x1DAAF)
        || (0x1E000 <= x && x <= 0x1E006)
        || (0x1E008 <= x && x <= 0x1E018)
        || (0x1E01B <= x && x <= 0x1E021)
        || (0x1E023 <= x && x <= 0x1E024)
        || (0x1E026 <= x && x <= 0x1E02A)
        || (0x1E130 <= x && x <= 0x1E136)
        || (x == 0x1E2AE)
        || (0x1E2EC <= x && x <= 0x1E2EF)
        || (0x1E8D0 <= x && x <= 0x1E8D6)
        || (0x1E944 <= x && x <= 0x1E94A)
        || (0xE0100 <= x && x <= 0xE01EF)
}

/// Calls `char::is_alphanumeric`. The contract claims that on ASCII the answer
/// is exactly "ASCII letter or digit", and that elsewhere it depends on `c` alone.
#[verifier::external_body]
pub fn char_is_alphanumeric(c: char) -> (r: bool)
    ensures
        (c as u32) < 128 ==> r == is_ascii_alnum(c),
        (c as u32) >= 128 ==> r == unicode_alphanumeric(c),
{
    c.is_alphanumeric()
}

/// Whether `c` has the Unicode White_Space property (what `char::is_whitespace`
/// answers).
pub fn char_is_whitespace(c: char) -> (r: bool)
    ensures
        r == unicode_whitespace(c),
{
    let x = c as u32;
    (0x9 <= x && x <= 0xD) || x == 0x20 || x == 0x85 || x == 0xA0 || x == 0x1680 || (0x2000 <= x && x
        <= 0x200A) || x == 0x2028 || x == 0x2029 || x == 0x202F || x == 0x205F || x == 0x3000
}

/// Calls `String::push`: appends one character.
#[verifier::external_body]
pub fn string_push(s: &mut String, c: char)
    ensures
        final(s)@ == old(s)@.push(c),
{
    s.push(c)
}

/// The characters of `s`, in order.
pub fn str_to_chars(s: &str) -> (v: Vec<char>)
    ensures
        v@ == s@,
{
    let mut v: Vec<char> = Vec::new();
    broadcast use vstd::string::group_string_axioms;
    for c in iter: s.chars()
        invariant
            v@ == iter.seq().take(iter.index() as int),
    {
        v.push(c);
    }
    assert(v@ == s@);
    v
}

/// A `String` holding exactly the characters of `v`.
pub fn chars_to_string(v: &Vec<char>) -> (s: String)
    ensures
        s@ == v@,
{
    let mut s = String::new();
    let mut i: usize = 0;
    while i < v.len()
        invariant
            i <= v.len(),
            s@ == v@.take(i as int),
        decreases v.len() - i,
    {
        string_push(&mut s, v[i]);
        i = i + 1;
        assert(s@ =~= v@.take(i as int));
    }
    assert(v@.take(i as int) =~= v@);
    s
}

} // verus!
