//! Tokenization of HTML text: tags with attributes, text with character
//! references decoded, comments and document types.
//!
//! As for selectors, the token grammar is stated as specification functions
//! over characters and positions, and the tokenizer is proved to produce
//! exactly the tokens they describe.

use vstd::prelude::*;
use crate::dom::{AttrView, Attribute, attr_index, attrs_ok, attrs_set, lemma_attrs_set_ok};
use crate::selector_parse::{skip_ws, find_char, skip_ws_exec, find_char_exec, slice_vec};
use crate::text::{lower_seq, name_seq, to_name_vec, lemma_name_seq, to_lower_vec, vec_eq, str_to_vec, is_ascii_ws, ascii_ws};

verus! {

/// A token of HTML text.
pub enum Token {
    /// Name, and the public and system identifiers as attributes named
    /// `public` and `system`.
    Doctype(Vec<char>, Vec<Attribute>),
    /// Name (lower case), attributes without repeated names, self-closing flag.
    StartTag(Vec<char>, Vec<Attribute>, bool),
    EndTag(Vec<char>),
    Text(Vec<char>),
    Comment(Vec<char>),
}

/// Mathematical form of a token.
pub enum TokenV {
    Doctype(Seq<char>, Seq<AttrView>),
    StartTag(Seq<char>, Seq<AttrView>, bool),
    EndTag(Seq<char>),
    Text(Seq<char>),
    Comment(Seq<char>),
}

impl View for Token {
    type V = TokenV;

    open spec fn view(&self) -> TokenV {
        match self {
            Token::Doctype(n, a) => TokenV::Doctype(n@, a@.map_values(|x: Attribute| x@)),
            Token::StartTag(n, a, sc) => TokenV::StartTag(n@, a@.map_values(|x: Attribute| x@), *sc),
            Token::EndTag(n) => TokenV::EndTag(n@),
            Token::Text(t) => TokenV::Text(t@),
            Token::Comment(t) => TokenV::Comment(t@),
        }
    }
}

pub open spec fn tokens_view(v: Vec<Token>) -> Seq<TokenV> {
    v@.map_values(|t: Token| t@)
}

// ---------------------------------------------------------------------------
// Newlines
// ---------------------------------------------------------------------------

/// Input with every CR LF pair and every lone CR turned into LF.
pub open spec fn normalize_newlines(s: Seq<char>) -> Seq<char>
    decreases s.len(),
{
    if s.len() == 0 {
        Seq::empty()
    } else if s[0] == '\r' {
        if s.len() > 1 && s[1] == '\n' {
            seq!['\n'] + normalize_newlines(s.subrange(2, s.len() as int))
        } else {
            seq!['\n'] + normalize_newlines(s.subrange(1, s.len() as int))
        }
    } else {
        seq![s[0]] + normalize_newlines(s.subrange(1, s.len() as int))
    }
}

pub fn normalize_newlines_exec(s: &Vec<char>) -> (r: Vec<char>)
    ensures
        r@ == normalize_newlines(s@),
{
    let mut r: Vec<char> = Vec::new();
    let mut i: usize = 0;
    assert(s@.subrange(0, s@.len() as int) =~= s@);
    while i < s.len()
        invariant
            i <= s.len(),
            normalize_newlines(s@) == r@ + normalize_newlines(s@.subrange(i as int, s@.len() as int)),
        decreases s.len() - i,
    {
        let ghost t = s@.subrange(i as int, s@.len() as int);
        if s[i] == '\r' {
            r.push('\n');
            if i + 1 < s.len() && s[i + 1] == '\n' {
                assert(t.subrange(2, t.len() as int) =~= s@.subrange(i + 2, s@.len() as int));
                i = i + 2;
            } else {
                assert(t.subrange(1, t.len() as int) =~= s@.subrange(i + 1, s@.len() as int));
                i = i + 1;
            }
        } else {
            r.push(s[i]);
            assert(t.subrange(1, t.len() as int) =~= s@.subrange(i + 1, s@.len() as int));
            i = i + 1;
        }
    }
    assert(s@.subrange(i as int, s@.len() as int) =~= Seq::<char>::empty());
    assert(normalize_newlines(Seq::<char>::empty()) =~= Seq::<char>::empty());
    assert(r@ + Seq::<char>::empty() =~= r@);
    r
}

// ---------------------------------------------------------------------------
// Character references
// ---------------------------------------------------------------------------

pub open spec fn is_alpha(c: char) -> bool {
    ('a' <= c && c <= 'z') || ('A' <= c && c <= 'Z')
}

pub open spec fn is_hex_digit(c: char) -> bool {
    ('0' <= c && c <= '9') || ('a' <= c && c <= 'f') || ('A' <= c && c <= 'F')
}

pub open spec fn hex_value(c: char) -> int {
    if '0' <= c && c <= '9' {
        c as int - '0' as int
    } else if 'a' <= c && c <= 'f' {
        c as int - 'a' as int + 10
    } else {
        c as int - 'A' as int + 10
    }
}

/// `p` occurs in `s` at `i`, within `..e`.
pub open spec fn at(s: Seq<char>, i: int, e: int, p: Seq<char>) -> bool {
    0 <= i && i + p.len() <= e && e <= s.len() && s.subrange(i, i + p.len()) == p
}

pub const REF_COUNT: usize = 259;

/// The named character references: name (without `&` and `;`), the
/// character, and whether the name is also recognized without the `;`.
pub open spec fn ref_entry(k: int) -> (Seq<char>, char, bool) {
    if k == 0 {
        ("nbsp"@, '\u{A0}', true)
    } else if k == 1 {
        ("iexcl"@, '\u{A1}', true)
    } else if k == 2 {
        ("cent"@, '\u{A2}', true)
    } else if k == 3 {
        ("pound"@, '\u{A3}', true)
    } else if k == 4 {
        ("curren"@, '\u{A4}', true)
    } else if k == 5 {
        ("yen"@, '\u{A5}', true)
    } else if k == 6 {
        ("brvbar"@, '\u{A6}', true)
    } else if k == 7 {
        ("sect"@, '\u{A7}', true)
    } else if k == 8 {
        ("uml"@, '\u{A8}', true)
    } else if k == 9 {
        ("copy"@, '\u{A9}', true)
    } else if k == 10 {
        ("ordf"@, '\u{AA}', true)
    } else if k == 11 {
        ("laquo"@, '\u{AB}', true)
    } else if k == 12 {
        ("not"@, '\u{AC}', true)
    } else if k == 13 {
        ("shy"@, '\u{AD}', true)
    } else if k == 14 {
        ("reg"@, '\u{AE}', true)
    } else if k == 15 {
        ("macr"@, '\u{AF}', true)
    } else if k == 16 {
        ("deg"@, '\u{B0}', true)
    } else if k == 17 {
        ("plusmn"@, '\u{B1}', true)
    } else if k == 18 {
        ("sup2"@, '\u{B2}', true)
    } else if k == 19 {
        ("sup3"@, '\u{B3}', true)
    } else if k == 20 {
        ("acute"@, '\u{B4}', true)
    } else if k == 21 {
        ("micro"@, '\u{B5}', true)
    } else if k == 22 {
        ("para"@, '\u{B6}', true)
    } else if k == 23 {
        ("middot"@, '\u{B7}', true)
    } else if k == 24 {
        ("cedil"@, '\u{B8}', true)
    } else if k == 25 {
        ("sup1"@, '\u{B9}', true)
    } else if k == 26 {
        ("ordm"@, '\u{BA}', true)
    } else if k == 27 {
        ("raquo"@, '\u{BB}', true)
    } else if k == 28 {
        ("frac14"@, '\u{BC}', true)
    } else if k == 29 {
        ("frac12"@, '\u{BD}', true)
    } else if k == 30 {
        ("frac34"@, '\u{BE}', true)
    } else if k == 31 {
        ("iquest"@, '\u{BF}', true)
    } else if k == 32 {
        ("Agrave"@, '\u{C0}', true)
    } else if k == 33 {
        ("Aacute"@, '\u{C1}', true)
    } else if k == 34 {
        ("Acirc"@, '\u{C2}', true)
    } else if k == 35 {
        ("Atilde"@, '\u{C3}', true)
    } else if k == 36 {
        ("Auml"@, '\u{C4}', true)
    } else if k == 37 {
        ("Aring"@, '\u{C5}', true)
    } else if k == 38 {
        ("AElig"@, '\u{C6}', true)
    } else if k == 39 {
        ("Ccedil"@, '\u{C7}', true)
    } else if k == 40 {
        ("Egrave"@, '\u{C8}', true)
    } else if k == 41 {
        ("Eacute"@, '\u{C9}', true)
    } else if k == 42 {
        ("Ecirc"@, '\u{CA}', true)
    } else if k == 43 {
        ("Euml"@, '\u{CB}', true)
    } else if k == 44 {
        ("Igrave"@, '\u{CC}', true)
    } else if k == 45 {
        ("Iacute"@, '\u{CD}', true)
    } else if k == 46 {
        ("Icirc"@, '\u{CE}', true)
    } else if k == 47 {
        ("Iuml"@, '\u{CF}', true)
    } else if k == 48 {
        ("ETH"@, '\u{D0}', true)
    } else if k == 49 {
        ("Ntilde"@, '\u{D1}', true)
    } else if k == 50 {
        ("Ograve"@, '\u{D2}', true)
    } else if k == 51 {
        ("Oacute"@, '\u{D3}', true)
    } else if k == 52 {
        ("Ocirc"@, '\u{D4}', true)
    } else if k == 53 {
        ("Otilde"@, '\u{D5}', true)
    } else if k == 54 {
        ("Ouml"@, '\u{D6}', true)
    } else if k == 55 {
        ("times"@, '\u{D7}', true)
    } else if k == 56 {
        ("Oslash"@, '\u{D8}', true)
    } else if k == 57 {
        ("Ugrave"@, '\u{D9}', true)
    } else if k == 58 {
        ("Uacute"@, '\u{DA}', true)
    } else if k == 59 {
        ("Ucirc"@, '\u{DB}', true)
    } else if k == 60 {
        ("Uuml"@, '\u{DC}', true)
    } else if k == 61 {
        ("Yacute"@, '\u{DD}', true)
    } else if k == 62 {
        ("THORN"@, '\u{DE}', true)
    } else if k == 63 {
        ("szlig"@, '\u{DF}', true)
    } else if k == 64 {
        ("agrave"@, '\u{E0}', true)
    } else if k == 65 {
        ("aacute"@, '\u{E1}', true)
    } else if k == 66 {
        ("acirc"@, '\u{E2}', true)
    } else if k == 67 {
        ("atilde"@, '\u{E3}', true)
    } else if k == 68 {
        ("auml"@, '\u{E4}', true)
    } else if k == 69 {
        ("aring"@, '\u{E5}', true)
    } else if k == 70 {
        ("aelig"@, '\u{E6}', true)
    } else if k == 71 {
        ("ccedil"@, '\u{E7}', true)
    } else if k == 72 {
        ("egrave"@, '\u{E8}', true)
    } else if k == 73 {
        ("eacute"@, '\u{E9}', true)
    } else if k == 74 {
        ("ecirc"@, '\u{EA}', true)
    } else if k == 75 {
        ("euml"@, '\u{EB}', true)
    } else if k == 76 {
        ("igrave"@, '\u{EC}', true)
    } else if k == 77 {
        ("iacute"@, '\u{ED}', true)
    } else if k == 78 {
        ("icirc"@, '\u{EE}', true)
    } else if k == 79 {
        ("iuml"@, '\u{EF}', true)
    } else if k == 80 {
        ("eth"@, '\u{F0}', true)
    } else if k == 81 {
        ("ntilde"@, '\u{F1}', true)
    } else if k == 82 {
        ("ograve"@, '\u{F2}', true)
    } else if k == 83 {
        ("oacute"@, '\u{F3}', true)
    } else if k == 84 {
        ("ocirc"@, '\u{F4}', true)
    } else if k == 85 {
        ("otilde"@, '\u{F5}', true)
    } else if k == 86 {
        ("ouml"@, '\u{F6}', true)
    } else if k == 87 {
        ("divide"@, '\u{F7}', true)
    } else if k == 88 {
        ("oslash"@, '\u{F8}', true)
    } else if k == 89 {
        ("ugrave"@, '\u{F9}', true)
    } else if k == 90 {
        ("uacute"@, '\u{FA}', true)
    } else if k == 91 {
        ("ucirc"@, '\u{FB}', true)
    } else if k == 92 {
        ("uuml"@, '\u{FC}', true)
    } else if k == 93 {
        ("yacute"@, '\u{FD}', true)
    } else if k == 94 {
        ("thorn"@, '\u{FE}', true)
    } else if k == 95 {
        ("yuml"@, '\u{FF}', true)
    } else if k == 96 {
        ("amp"@, '&', true)
    } else if k == 97 {
        ("lt"@, '<', true)
    } else if k == 98 {
        ("gt"@, '>', true)
    } else if k == 99 {
        ("quot"@, '"', true)
    } else if k == 100 {
        ("AMP"@, '&', true)
    } else if k == 101 {
        ("LT"@, '<', true)
    } else if k == 102 {
        ("GT"@, '>', true)
    } else if k == 103 {
        ("QUOT"@, '"', true)
    } else if k == 104 {
        ("COPY"@, '\u{A9}', true)
    } else if k == 105 {
        ("REG"@, '\u{AE}', true)
    } else if k == 106 {
        ("apos"@, '\'', false)
    } else if k == 107 {
        ("OElig"@, '\u{152}', false)
    } else if k == 108 {
        ("oelig"@, '\u{153}', false)
    } else if k == 109 {
        ("Scaron"@, '\u{160}', false)
    } else if k == 110 {
        ("scaron"@, '\u{161}', false)
    } else if k == 111 {
        ("Yuml"@, '\u{178}', false)
    } else if k == 112 {
        ("circ"@, '\u{2C6}', false)
    } else if k == 113 {
        ("tilde"@, '\u{2DC}', false)
    } else if k == 114 {
        ("ensp"@, '\u{2002}', false)
    } else if k == 115 {
        ("emsp"@, '\u{2003}', false)
    } else if k == 116 {
        ("thinsp"@, '\u{2009}', false)
    } else if k == 117 {
        ("zwnj"@, '\u{200C}', false)
    } else if k == 118 {
        ("zwj"@, '\u{200D}', false)
    } else if k == 119 {
        ("lrm"@, '\u{200E}', false)
    } else if k == 120 {
        ("rlm"@, '\u{200F}', false)
    } else if k == 121 {
        ("ndash"@, '\u{2013}', false)
    } else if k == 122 {
        ("mdash"@, '\u{2014}', false)
    } else if k == 123 {
        ("lsquo"@, '\u{2018}', false)
    } else if k == 124 {
        ("rsquo"@, '\u{2019}', false)
    } else if k == 125 {
        ("sbquo"@, '\u{201A}', false)
    } else if k == 126 {
        ("ldquo"@, '\u{201C}', false)
    } else if k == 127 {
        ("rdquo"@, '\u{201D}', false)
    } else if k == 128 {
        ("bdquo"@, '\u{201E}', false)
    } else if k == 129 {
        ("dagger"@, '\u{2020}', false)
    } else if k == 130 {
        ("Dagger"@, '\u{2021}', false)
    } else if k == 131 {
        ("permil"@, '\u{2030}', false)
    } else if k == 132 {
        ("lsaquo"@, '\u{2039}', false)
    } else if k == 133 {
        ("rsaquo"@, '\u{203A}', false)
    } else if k == 134 {
        ("euro"@, '\u{20AC}', false)
    } else if k == 135 {
        ("fnof"@, '\u{192}', false)
    } else if k == 136 {
        ("Alpha"@, '\u{391}', false)
    } else if k == 137 {
        ("Beta"@, '\u{392}', false)
    } else if k == 138 {
        ("Gamma"@, '\u{393}', false)
    } else if k == 139 {
        ("Delta"@, '\u{394}', false)
    } else if k == 140 {
        ("Epsilon"@, '\u{395}', false)
    } else if k == 141 {
        ("Zeta"@, '\u{396}', false)
    } else if k == 142 {
        ("Eta"@, '\u{397}', false)
    } else if k == 143 {
        ("Theta"@, '\u{398}', false)
    } else if k == 144 {
        ("Iota"@, '\u{399}', false)
    } else if k == 145 {
        ("Kappa"@, '\u{39A}', false)
    } else if k == 146 {
        ("Lambda"@, '\u{39B}', false)
    } else if k == 147 {
        ("Mu"@, '\u{39C}', false)
    } else if k == 148 {
        ("Nu"@, '\u{39D}', false)
    } else if k == 149 {
        ("Xi"@, '\u{39E}', false)
    } else if k == 150 {
        ("Omicron"@, '\u{39F}', false)
    } else if k == 151 {
        ("Pi"@, '\u{3A0}', false)
    } else if k == 152 {
        ("Rho"@, '\u{3A1}', false)
    } else if k == 153 {
        ("Sigma"@, '\u{3A3}', false)
    } else if k == 154 {
        ("Tau"@, '\u{3A4}', false)
    } else if k == 155 {
        ("Upsilon"@, '\u{3A5}', false)
    } else if k == 156 {
        ("Phi"@, '\u{3A6}', false)
    } else if k == 157 {
        ("Chi"@, '\u{3A7}', false)
    } else if k == 158 {
        ("Psi"@, '\u{3A8}', false)
    } else if k == 159 {
        ("Omega"@, '\u{3A9}', false)
    } else if k == 160 {
        ("alpha"@, '\u{3B1}', false)
    } else if k == 161 {
        ("beta"@, '\u{3B2}', false)
    } else if k == 162 {
        ("gamma"@, '\u{3B3}', false)
    } else if k == 163 {
        ("delta"@, '\u{3B4}', false)
    } else if k == 164 {
        ("epsilon"@, '\u{3B5}', false)
    } else if k == 165 {
        ("zeta"@, '\u{3B6}', false)
    } else if k == 166 {
        ("eta"@, '\u{3B7}', false)
    } else if k == 167 {
        ("theta"@, '\u{3B8}', false)
    } else if k == 168 {
        ("iota"@, '\u{3B9}', false)
    } else if k == 169 {
        ("kappa"@, '\u{3BA}', false)
    } else if k == 170 {
        ("lambda"@, '\u{3BB}', false)
    } else if k == 171 {
        ("mu"@, '\u{3BC}', false)
    } else if k == 172 {
        ("nu"@, '\u{3BD}', false)
    } else if k == 173 {
        ("xi"@, '\u{3BE}', false)
    } else if k == 174 {
        ("omicron"@, '\u{3BF}', false)
    } else if k == 175 {
        ("pi"@, '\u{3C0}', false)
    } else if k == 176 {
        ("rho"@, '\u{3C1}', false)
    } else if k == 177 {
        ("sigmaf"@, '\u{3C2}', false)
    } else if k == 178 {
        ("sigma"@, '\u{3C3}', false)
    } else if k == 179 {
        ("tau"@, '\u{3C4}', false)
    } else if k == 180 {
        ("upsilon"@, '\u{3C5}', false)
    } else if k == 181 {
        ("phi"@, '\u{3C6}', false)
    } else if k == 182 {
        ("chi"@, '\u{3C7}', false)
    } else if k == 183 {
        ("psi"@, '\u{3C8}', false)
    } else if k == 184 {
        ("omega"@, '\u{3C9}', false)
    } else if k == 185 {
        ("thetasym"@, '\u{3D1}', false)
    } else if k == 186 {
        ("upsih"@, '\u{3D2}', false)
    } else if k == 187 {
        ("piv"@, '\u{3D6}', false)
    } else if k == 188 {
        ("bull"@, '\u{2022}', false)
    } else if k == 189 {
        ("hellip"@, '\u{2026}', false)
    } else if k == 190 {
        ("prime"@, '\u{2032}', false)
    } else if k == 191 {
        ("Prime"@, '\u{2033}', false)
    } else if k == 192 {
        ("oline"@, '\u{203E}', false)
    } else if k == 193 {
        ("frasl"@, '\u{2044}', false)
    } else if k == 194 {
        ("weierp"@, '\u{2118}', false)
    } else if k == 195 {
        ("image"@, '\u{2111}', false)
    } else if k == 196 {
        ("real"@, '\u{211C}', false)
    } else if k == 197 {
        ("trade"@, '\u{2122}', false)
    } else if k == 198 {
        ("alefsym"@, '\u{2135}', false)
    } else if k == 199 {
        ("larr"@, '\u{2190}', false)
    } else if k == 200 {
        ("uarr"@, '\u{2191}', false)
    } else if k == 201 {
        ("rarr"@, '\u{2192}', false)
    } else if k == 202 {
        ("darr"@, '\u{2193}', false)
    } else if k == 203 {
        ("harr"@, '\u{2194}', false)
    } else if k == 204 {
        ("crarr"@, '\u{21B5}', false)
    } else if k == 205 {
        ("lArr"@, '\u{21D0}', false)
    } else if k == 206 {
        ("uArr"@, '\u{21D1}', false)
    } else if k == 207 {
        ("rArr"@, '\u{21D2}', false)
    } else if k == 208 {
        ("dArr"@, '\u{21D3}', false)
    } else if k == 209 {
        ("hArr"@, '\u{21D4}', false)
    } else if k == 210 {
        ("forall"@, '\u{2200}', false)
    } else if k == 211 {
        ("part"@, '\u{2202}', false)
    } else if k == 212 {
        ("exist"@, '\u{2203}', false)
    } else if k == 213 {
        ("empty"@, '\u{2205}', false)
    } else if k == 214 {
        ("nabla"@, '\u{2207}', false)
    } else if k == 215 {
        ("isin"@, '\u{2208}', false)
    } else if k == 216 {
        ("notin"@, '\u{2209}', false)
    } else if k == 217 {
        ("ni"@, '\u{220B}', false)
    } else if k == 218 {
        ("prod"@, '\u{220F}', false)
    } else if k == 219 {
        ("sum"@, '\u{2211}', false)
    } else if k == 220 {
        ("minus"@, '\u{2212}', false)
    } else if k == 221 {
        ("lowast"@, '\u{2217}', false)
    } else if k == 222 {
        ("radic"@, '\u{221A}', false)
    } else if k == 223 {
        ("prop"@, '\u{221D}', false)
    } else if k == 224 {
        ("infin"@, '\u{221E}', false)
    } else if k == 225 {
        ("ang"@, '\u{2220}', false)
    } else if k == 226 {
        ("and"@, '\u{2227}', false)
    } else if k == 227 {
        ("or"@, '\u{2228}', false)
    } else if k == 228 {
        ("cap"@, '\u{2229}', false)
    } else if k == 229 {
        ("cup"@, '\u{222A}', false)
    } else if k == 230 {
        ("int"@, '\u{222B}', false)
    } else if k == 231 {
        ("there4"@, '\u{2234}', false)
    } else if k == 232 {
        ("sim"@, '\u{223C}', false)
    } else if k == 233 {
        ("cong"@, '\u{2245}', false)
    } else if k == 234 {
        ("asymp"@, '\u{2248}', false)
    } else if k == 235 {
        ("ne"@, '\u{2260}', false)
    } else if k == 236 {
        ("equiv"@, '\u{2261}', false)
    } else if k == 237 {
        ("le"@, '\u{2264}', false)
    } else if k == 238 {
        ("ge"@, '\u{2265}', false)
    } else if k == 239 {
        ("sub"@, '\u{2282}', false)
    } else if k == 240 {
        ("sup"@, '\u{2283}', false)
    } else if k == 241 {
        ("nsub"@, '\u{2284}', false)
    } else if k == 242 {
        ("sube"@, '\u{2286}', false)
    } else if k == 243 {
        ("supe"@, '\u{2287}', false)
    } else if k == 244 {
        ("oplus"@, '\u{2295}', false)
    } else if k == 245 {
        ("otimes"@, '\u{2297}', false)
    } else if k == 246 {
        ("perp"@, '\u{22A5}', false)
    } else if k == 247 {
        ("sdot"@, '\u{22C5}', false)
    } else if k == 248 {
        ("lceil"@, '\u{2308}', false)
    } else if k == 249 {
        ("rceil"@, '\u{2309}', false)
    } else if k == 250 {
        ("lfloor"@, '\u{230A}', false)
    } else if k == 251 {
        ("rfloor"@, '\u{230B}', false)
    } else if k == 252 {
        ("lang"@, '\u{27E8}', false)
    } else if k == 253 {
        ("rang"@, '\u{27E9}', false)
    } else if k == 254 {
        ("loz"@, '\u{25CA}', false)
    } else if k == 255 {
        ("spades"@, '\u{2660}', false)
    } else if k == 256 {
        ("clubs"@, '\u{2663}', false)
    } else if k == 257 {
        ("hearts"@, '\u{2665}', false)
    } else if k == 258 {
        ("diams"@, '\u{2666}', false)
    } else {
        (Seq::empty(), ' ', false)
    }
}

fn ref_entry_exec(k: usize) -> (r: (&'static str, char, bool))
    requires
        k < REF_COUNT,
    ensures
        (r.0@, r.1, r.2) == ref_entry(k as int),
{
    if k == 0 {
        ("nbsp", '\u{A0}', true)
    } else if k == 1 {
        ("iexcl", '\u{A1}', true)
    } else if k == 2 {
        ("cent", '\u{A2}', true)
    } else if k == 3 {
        ("pound", '\u{A3}', true)
    } else if k == 4 {
        ("curren", '\u{A4}', true)
    } else if k == 5 {
        ("yen", '\u{A5}', true)
    } else if k == 6 {
        ("brvbar", '\u{A6}', true)
    } else if k == 7 {
        ("sect", '\u{A7}', true)
    } else if k == 8 {
        ("uml", '\u{A8}', true)
    } else if k == 9 {
        ("copy", '\u{A9}', true)
    } else if k == 10 {
        ("ordf", '\u{AA}', true)
    } else if k == 11 {
        ("laquo", '\u{AB}', true)
    } else if k == 12 {
        ("not", '\u{AC}', true)
    } else if k == 13 {
        ("shy", '\u{AD}', true)
    } else if k == 14 {
        ("reg", '\u{AE}', true)
    } else if k == 15 {
        ("macr", '\u{AF}', true)
    } else if k == 16 {
        ("deg", '\u{B0}', true)
    } else if k == 17 {
        ("plusmn", '\u{B1}', true)
    } else if k == 18 {
        ("sup2", '\u{B2}', true)
    } else if k == 19 {
        ("sup3", '\u{B3}', true)
    } else if k == 20 {
        ("acute", '\u{B4}', true)
    } else if k == 21 {
        ("micro", '\u{B5}', true)
    } else if k == 22 {
        ("para", '\u{B6}', true)
    } else if k == 23 {
        ("middot", '\u{B7}', true)
    } else if k == 24 {
        ("cedil", '\u{B8}', true)
    } else if k == 25 {
        ("sup1", '\u{B9}', true)
    } else if k == 26 {
        ("ordm", '\u{BA}', true)
    } else if k == 27 {
        ("raquo", '\u{BB}', true)
    } else if k == 28 {
        ("frac14", '\u{BC}', true)
    } else if k == 29 {
        ("frac12", '\u{BD}', true)
    } else if k == 30 {
        ("frac34", '\u{BE}', true)
    } else if k == 31 {
        ("iquest", '\u{BF}', true)
    } else if k == 32 {
        ("Agrave", '\u{C0}', true)
    } else if k == 33 {
        ("Aacute", '\u{C1}', true)
    } else if k == 34 {
        ("Acirc", '\u{C2}', true)
    } else if k == 35 {
        ("Atilde", '\u{C3}', true)
    } else if k == 36 {
        ("Auml", '\u{C4}', true)
    } else if k == 37 {
        ("Aring", '\u{C5}', true)
    } else if k == 38 {
        ("AElig", '\u{C6}', true)
    } else if k == 39 {
        ("Ccedil", '\u{C7}', true)
    } else if k == 40 {
        ("Egrave", '\u{C8}', true)
    } else if k == 41 {
        ("Eacute", '\u{C9}', true)
    } else if k == 42 {
        ("Ecirc", '\u{CA}', true)
    } else if k == 43 {
        ("Euml", '\u{CB}', true)
    } else if k == 44 {
        ("Igrave", '\u{CC}', true)
    } else if k == 45 {
        ("Iacute", '\u{CD}', true)
    } else if k == 46 {
        ("Icirc", '\u{CE}', true)
    } else if k == 47 {
        ("Iuml", '\u{CF}', true)
    } else if k == 48 {
        ("ETH", '\u{D0}', true)
    } else if k == 49 {
        ("Ntilde", '\u{D1}', true)
    } else if k == 50 {
        ("Ograve", '\u{D2}', true)
    } else if k == 51 {
        ("Oacute", '\u{D3}', true)
    } else if k == 52 {
        ("Ocirc", '\u{D4}', true)
    } else if k == 53 {
        ("Otilde", '\u{D5}', true)
    } else if k == 54 {
        ("Ouml", '\u{D6}', true)
    } else if k == 55 {
        ("times", '\u{D7}', true)
    } else if k == 56 {
        ("Oslash", '\u{D8}', true)
    } else if k == 57 {
        ("Ugrave", '\u{D9}', true)
    } else if k == 58 {
        ("Uacute", '\u{DA}', true)
    } else if k == 59 {
        ("Ucirc", '\u{DB}', true)
    } else if k == 60 {
        ("Uuml", '\u{DC}', true)
    } else if k == 61 {
        ("Yacute", '\u{DD}', true)
    } else if k == 62 {
        ("THORN", '\u{DE}', true)
    } else if k == 63 {
        ("szlig", '\u{DF}', true)
    } else if k == 64 {
        ("agrave", '\u{E0}', true)
    } else if k == 65 {
        ("aacute", '\u{E1}', true)
    } else if k == 66 {
        ("acirc", '\u{E2}', true)
    } else if k == 67 {
        ("atilde", '\u{E3}', true)
    } else if k == 68 {
        ("auml", '\u{E4}', true)
    } else if k == 69 {
        ("aring", '\u{E5}', true)
    } else if k == 70 {
        ("aelig", '\u{E6}', true)
    } else if k == 71 {
        ("ccedil", '\u{E7}', true)
    } else if k == 72 {
        ("egrave", '\u{E8}', true)
    } else if k == 73 {
        ("eacute", '\u{E9}', true)
    } else if k == 74 {
        ("ecirc", '\u{EA}', true)
    } else if k == 75 {
        ("euml", '\u{EB}', true)
    } else if k == 76 {
        ("igrave", '\u{EC}', true)
    } else if k == 77 {
        ("iacute", '\u{ED}', true)
    } else if k == 78 {
        ("icirc", '\u{EE}', true)
    } else if k == 79 {
        ("iuml", '\u{EF}', true)
    } else if k == 80 {
        ("eth", '\u{F0}', true)
    } else if k == 81 {
        ("ntilde", '\u{F1}', true)
    } else if k == 82 {
        ("ograve", '\u{F2}', true)
    } else if k == 83 {
        ("oacute", '\u{F3}', true)
    } else if k == 84 {
        ("ocirc", '\u{F4}', true)
    } else if k == 85 {
        ("otilde", '\u{F5}', true)
    } else if k == 86 {
        ("ouml", '\u{F6}', true)
    } else if k == 87 {
        ("divide", '\u{F7}', true)
    } else if k == 88 {
        ("oslash", '\u{F8}', true)
    } else if k == 89 {
        ("ugrave", '\u{F9}', true)
    } else if k == 90 {
        ("uacute", '\u{FA}', true)
    } else if k == 91 {
        ("ucirc", '\u{FB}', true)
    } else if k == 92 {
        ("uuml", '\u{FC}', true)
    } else if k == 93 {
        ("yacute", '\u{FD}', true)
    } else if k == 94 {
        ("thorn", '\u{FE}', true)
    } else if k == 95 {
        ("yuml", '\u{FF}', true)
    } else if k == 96 {
        ("amp", '&', true)
    } else if k == 97 {
        ("lt", '<', true)
    } else if k == 98 {
        ("gt", '>', true)
    } else if k == 99 {
        ("quot", '"', true)
    } else if k == 100 {
        ("AMP", '&', true)
    } else if k == 101 {
        ("LT", '<', true)
    } else if k == 102 {
        ("GT", '>', true)
    } else if k == 103 {
        ("QUOT", '"', true)
    } else if k == 104 {
        ("COPY", '\u{A9}', true)
    } else if k == 105 {
        ("REG", '\u{AE}', true)
    } else if k == 106 {
        ("apos", '\'', false)
    } else if k == 107 {
        ("OElig", '\u{152}', false)
    } else if k == 108 {
        ("oelig", '\u{153}', false)
    } else if k == 109 {
        ("Scaron", '\u{160}', false)
    } else if k == 110 {
        ("scaron", '\u{161}', false)
    } else if k == 111 {
        ("Yuml", '\u{178}', false)
    } else if k == 112 {
        ("circ", '\u{2C6}', false)
    } else if k == 113 {
        ("tilde", '\u{2DC}', false)
    } else if k == 114 {
        ("ensp", '\u{2002}', false)
    } else if k == 115 {
        ("emsp", '\u{2003}', false)
    } else if k == 116 {
        ("thinsp", '\u{2009}', false)
    } else if k == 117 {
        ("zwnj", '\u{200C}', false)
    } else if k == 118 {
        ("zwj", '\u{200D}', false)
    } else if k == 119 {
        ("lrm", '\u{200E}', false)
    } else if k == 120 {
        ("rlm", '\u{200F}', false)
    } else if k == 121 {
        ("ndash", '\u{2013}', false)
    } else if k == 122 {
        ("mdash", '\u{2014}', false)
    } else if k == 123 {
        ("lsquo", '\u{2018}', false)
    } else if k == 124 {
        ("rsquo", '\u{2019}', false)
    } else if k == 125 {
        ("sbquo", '\u{201A}', false)
    } else if k == 126 {
        ("ldquo", '\u{201C}', false)
    } else if k == 127 {
        ("rdquo", '\u{201D}', false)
    } else if k == 128 {
        ("bdquo", '\u{201E}', false)
    } else if k == 129 {
        ("dagger", '\u{2020}', false)
    } else if k == 130 {
        ("Dagger", '\u{2021}', false)
    } else if k == 131 {
        ("permil", '\u{2030}', false)
    } else if k == 132 {
        ("lsaquo", '\u{2039}', false)
    } else if k == 133 {
        ("rsaquo", '\u{203A}', false)
    } else if k == 134 {
        ("euro", '\u{20AC}', false)
    } else if k == 135 {
        ("fnof", '\u{192}', false)
    } else if k == 136 {
        ("Alpha", '\u{391}', false)
    } else if k == 137 {
        ("Beta", '\u{392}', false)
    } else if k == 138 {
        ("Gamma", '\u{393}', false)
    } else if k == 139 {
        ("Delta", '\u{394}', false)
    } else if k == 140 {
        ("Epsilon", '\u{395}', false)
    } else if k == 141 {
        ("Zeta", '\u{396}', false)
    } else if k == 142 {
        ("Eta", '\u{397}', false)
    } else if k == 143 {
        ("Theta", '\u{398}', false)
    } else if k == 144 {
        ("Iota", '\u{399}', false)
    } else if k == 145 {
        ("Kappa", '\u{39A}', false)
    } else if k == 146 {
        ("Lambda", '\u{39B}', false)
    } else if k == 147 {
        ("Mu", '\u{39C}', false)
    } else if k == 148 {
        ("Nu", '\u{39D}', false)
    } else if k == 149 {
        ("Xi", '\u{39E}', false)
    } else if k == 150 {
        ("Omicron", '\u{39F}', false)
    } else if k == 151 {
        ("Pi", '\u{3A0}', false)
    } else if k == 152 {
        ("Rho", '\u{3A1}', false)
    } else if k == 153 {
        ("Sigma", '\u{3A3}', false)
    } else if k == 154 {
        ("Tau", '\u{3A4}', false)
    } else if k == 155 {
        ("Upsilon", '\u{3A5}', false)
    } else if k == 156 {
        ("Phi", '\u{3A6}', false)
    } else if k == 157 {
        ("Chi", '\u{3A7}', false)
    } else if k == 158 {
        ("Psi", '\u{3A8}', false)
    } else if k == 159 {
        ("Omega", '\u{3A9}', false)
    } else if k == 160 {
        ("alpha", '\u{3B1}', false)
    } else if k == 161 {
        ("beta", '\u{3B2}', false)
    } else if k == 162 {
        ("gamma", '\u{3B3}', false)
    } else if k == 163 {
        ("delta", '\u{3B4}', false)
    } else if k == 164 {
        ("epsilon", '\u{3B5}', false)
    } else if k == 165 {
        ("zeta", '\u{3B6}', false)
    } else if k == 166 {
        ("eta", '\u{3B7}', false)
    } else if k == 167 {
        ("theta", '\u{3B8}', false)
    } else if k == 168 {
        ("iota", '\u{3B9}', false)
    } else if k == 169 {
        ("kappa", '\u{3BA}', false)
    } else if k == 170 {
        ("lambda", '\u{3BB}', false)
    } else if k == 171 {
        ("mu", '\u{3BC}', false)
    } else if k == 172 {
        ("nu", '\u{3BD}', false)
    } else if k == 173 {
        ("xi", '\u{3BE}', false)
    } else if k == 174 {
        ("omicron", '\u{3BF}', false)
    } else if k == 175 {
        ("pi", '\u{3C0}', false)
    } else if k == 176 {
        ("rho", '\u{3C1}', false)
    } else if k == 177 {
        ("sigmaf", '\u{3C2}', false)
    } else if k == 178 {
        ("sigma", '\u{3C3}', false)
    } else if k == 179 {
        ("tau", '\u{3C4}', false)
    } else if k == 180 {
        ("upsilon", '\u{3C5}', false)
    } else if k == 181 {
        ("phi", '\u{3C6}', false)
    } else if k == 182 {
        ("chi", '\u{3C7}', false)
    } else if k == 183 {
        ("psi", '\u{3C8}', false)
    } else if k == 184 {
        ("omega", '\u{3C9}', false)
    } else if k == 185 {
        ("thetasym", '\u{3D1}', false)
    } else if k == 186 {
        ("upsih", '\u{3D2}', false)
    } else if k == 187 {
        ("piv", '\u{3D6}', false)
    } else if k == 188 {
        ("bull", '\u{2022}', false)
    } else if k == 189 {
        ("hellip", '\u{2026}', false)
    } else if k == 190 {
        ("prime", '\u{2032}', false)
    } else if k == 191 {
        ("Prime", '\u{2033}', false)
    } else if k == 192 {
        ("oline", '\u{203E}', false)
    } else if k == 193 {
        ("frasl", '\u{2044}', false)
    } else if k == 194 {
        ("weierp", '\u{2118}', false)
    } else if k == 195 {
        ("image", '\u{2111}', false)
    } else if k == 196 {
        ("real", '\u{211C}', false)
    } else if k == 197 {
        ("trade", '\u{2122}', false)
    } else if k == 198 {
        ("alefsym", '\u{2135}', false)
    } else if k == 199 {
        ("larr", '\u{2190}', false)
    } else if k == 200 {
        ("uarr", '\u{2191}', false)
    } else if k == 201 {
        ("rarr", '\u{2192}', false)
    } else if k == 202 {
        ("darr", '\u{2193}', false)
    } else if k == 203 {
        ("harr", '\u{2194}', false)
    } else if k == 204 {
        ("crarr", '\u{21B5}', false)
    } else if k == 205 {
        ("lArr", '\u{21D0}', false)
    } else if k == 206 {
        ("uArr", '\u{21D1}', false)
    } else if k == 207 {
        ("rArr", '\u{21D2}', false)
    } else if k == 208 {
        ("dArr", '\u{21D3}', false)
    } else if k == 209 {
        ("hArr", '\u{21D4}', false)
    } else if k == 210 {
        ("forall", '\u{2200}', false)
    } else if k == 211 {
        ("part", '\u{2202}', false)
    } else if k == 212 {
        ("exist", '\u{2203}', false)
    } else if k == 213 {
        ("empty", '\u{2205}', false)
    } else if k == 214 {
        ("nabla", '\u{2207}', false)
    } else if k == 215 {
        ("isin", '\u{2208}', false)
    } else if k == 216 {
        ("notin", '\u{2209}', false)
    } else if k == 217 {
        ("ni", '\u{220B}', false)
    } else if k == 218 {
        ("prod", '\u{220F}', false)
    } else if k == 219 {
        ("sum", '\u{2211}', false)
    } else if k == 220 {
        ("minus", '\u{2212}', false)
    } else if k == 221 {
        ("lowast", '\u{2217}', false)
    } else if k == 222 {
        ("radic", '\u{221A}', false)
    } else if k == 223 {
        ("prop", '\u{221D}', false)
    } else if k == 224 {
        ("infin", '\u{221E}', false)
    } else if k == 225 {
        ("ang", '\u{2220}', false)
    } else if k == 226 {
        ("and", '\u{2227}', false)
    } else if k == 227 {
        ("or", '\u{2228}', false)
    } else if k == 228 {
        ("cap", '\u{2229}', false)
    } else if k == 229 {
        ("cup", '\u{222A}', false)
    } else if k == 230 {
        ("int", '\u{222B}', false)
    } else if k == 231 {
        ("there4", '\u{2234}', false)
    } else if k == 232 {
        ("sim", '\u{223C}', false)
    } else if k == 233 {
        ("cong", '\u{2245}', false)
    } else if k == 234 {
        ("asymp", '\u{2248}', false)
    } else if k == 235 {
        ("ne", '\u{2260}', false)
    } else if k == 236 {
        ("equiv", '\u{2261}', false)
    } else if k == 237 {
        ("le", '\u{2264}', false)
    } else if k == 238 {
        ("ge", '\u{2265}', false)
    } else if k == 239 {
        ("sub", '\u{2282}', false)
    } else if k == 240 {
        ("sup", '\u{2283}', false)
    } else if k == 241 {
        ("nsub", '\u{2284}', false)
    } else if k == 242 {
        ("sube", '\u{2286}', false)
    } else if k == 243 {
        ("supe", '\u{2287}', false)
    } else if k == 244 {
        ("oplus", '\u{2295}', false)
    } else if k == 245 {
        ("otimes", '\u{2297}', false)
    } else if k == 246 {
        ("perp", '\u{22A5}', false)
    } else if k == 247 {
        ("sdot", '\u{22C5}', false)
    } else if k == 248 {
        ("lceil", '\u{2308}', false)
    } else if k == 249 {
        ("rceil", '\u{2309}', false)
    } else if k == 250 {
        ("lfloor", '\u{230A}', false)
    } else if k == 251 {
        ("rfloor", '\u{230B}', false)
    } else if k == 252 {
        ("lang", '\u{27E8}', false)
    } else if k == 253 {
        ("rang", '\u{27E9}', false)
    } else if k == 254 {
        ("loz", '\u{25CA}', false)
    } else if k == 255 {
        ("spades", '\u{2660}', false)
    } else if k == 256 {
        ("clubs", '\u{2663}', false)
    } else if k == 257 {
        ("hearts", '\u{2665}', false)
    } else if k == 258 {
        ("diams", '\u{2666}', false)
    } else {
        ("", ' ', false)
    }
}

/// ASCII letters and digits.
pub open spec fn is_alnum(c: char) -> bool {
    is_alpha(c) || ('0' <= c && c <= '9')
}

/// A named reference written with its `;` at `i`: the first entry from `k`
/// on whose name follows the `&`.
pub open spec fn ref_with_semicolon(s: Seq<char>, i: int, e: int, k: int) -> Option<(char, int)>
    decreases REF_COUNT - k,
{
    if 0 <= k < REF_COUNT {
        let en = ref_entry(k);
        if at(s, i, e, seq!['&'] + en.0 + seq![';']) {
            Some((en.1, i + en.0.len() + 2))
        } else {
            ref_with_semicolon(s, i, e, k + 1)
        }
    } else {
        None
    }
}

/// A named reference written without its `;` at `i`: only the names that
/// may be written so; in an attribute value, not when an ASCII letter, a
/// digit or `=` follows the name.
pub open spec fn ref_without_semicolon(s: Seq<char>, i: int, e: int, k: int, attr: bool) -> Option<
    (char, int),
>
    decreases REF_COUNT - k,
{
    if 0 <= k < REF_COUNT {
        let en = ref_entry(k);
        if en.2 && en.0.len() > 0 && at(s, i, e, seq!['&'] + en.0) {
            let j = i + en.0.len() + 1;
            if attr && j < e && (is_alnum(s[j]) || s[j] == '=') {
                None
            } else {
                Some((en.1, j))
            }
        } else {
            ref_without_semicolon(s, i, e, k + 1, attr)
        }
    } else {
        None
    }
}

/// The named reference at `i`, in an attribute value when `attr`: the
/// form with `;` first, else the form without.
pub open spec fn named_ref(s: Seq<char>, i: int, e: int, attr: bool) -> Option<(char, int)> {
    match ref_with_semicolon(s, i, e, 0) {
        Some(r) => Some(r),
        None => ref_without_semicolon(s, i, e, 0, attr),
    }
}

/// End of a run of decimal (or hexadecimal) digits from `i` within `..e`.
pub open spec fn digits_end(s: Seq<char>, i: int, e: int, hex: bool) -> int
    decreases e - i,
{
    if 0 <= i < e && e <= s.len() && digit_class(s[i], hex) {
        digits_end(s, i + 1, e, hex)
    } else {
        i
    }
}

/// Value of the digits at `lo..hi`.
pub open spec fn number_value(s: Seq<char>, lo: int, hi: int, hex: bool) -> int
    decreases hi - lo,
{
    if lo < hi {
        number_value(s, lo, hi - 1, hex) * (if hex {
            16int
        } else {
            10int
        }) + hex_value(s[hi - 1])
    } else {
        0
    }
}

/// A Unicode scalar value: what a `char` can hold.
pub open spec fn is_scalar(v: int) -> bool {
    (0 <= v < 0xD800) || (0xE000 <= v <= 0x10FFFF)
}

/// The character a numeric reference stands for: the replacement character
/// for NUL, surrogates, values beyond Unicode and over-long digit runs.
pub open spec fn numeric_char(v: int, digits: int) -> char {
    if digits <= 7 && v != 0 && is_scalar(v) {
        v as char
    } else {
        '\u{FFFD}'
    }
}

/// A numeric reference `&#..;` or `&#x..;` at `i` (the `;` may be left out).
pub open spec fn numeric_ref(s: Seq<char>, i: int, e: int) -> Option<(char, int)> {
    if at(s, i, e, "&#"@) {
        let hex = i + 2 < e && (s[i + 2] == 'x' || s[i + 2] == 'X');
        let lo = if hex {
            i + 3
        } else {
            i + 2
        };
        let hi = digits_end(s, lo, e, hex);
        if hi == lo {
            None
        } else {
            let c = numeric_char(
                if hi - lo <= 7 {
                    number_value(s, lo, hi, hex)
                } else {
                    0
                },
                hi - lo,
            );
            if hi < e && s[hi] == ';' {
                Some((c, hi + 1))
            } else {
                Some((c, hi))
            }
        }
    } else {
        None
    }
}

/// The characters of `s[i..e]` with character references replaced.
pub open spec fn decode(s: Seq<char>, i: int, e: int, attr: bool) -> Seq<char>
    decreases e - i,
{
    if 0 <= i < e && e <= s.len() {
        if s[i] == '&' {
            match named_ref(s, i, e, attr) {
                Some((c, j)) => if i < j <= e {
                    seq![c] + decode(s, j, e, attr)
                } else {
                    Seq::empty()
                },
                None => match numeric_ref(s, i, e) {
                    Some((c, j)) => if i < j <= e {
                        seq![c] + decode(s, j, e, attr)
                    } else {
                        Seq::empty()
                    },
                    None => seq!['&'] + decode(s, i + 1, e, attr),
                },
            }
        } else {
            seq![s[i]] + decode(s, i + 1, e, attr)
        }
    } else {
        Seq::empty()
    }
}

/// `char::from_u32`: the character with scalar value `v`, if `v` is one.
#[verifier::external_body]
fn char_from_u32(v: u32) -> (r: Option<char>)
    ensures
        is_scalar(v as int) ==> r == Some(v as char),
        !is_scalar(v as int) ==> r is None,
{
    char::from_u32(v)
}

/// `&`, the name, and `;` when `semi`.
fn ref_pattern(name: &str, semi: bool) -> (r: Vec<char>)
    ensures
        r@ == seq!['&'] + name@ + (if semi {
            seq![';']
        } else {
            Seq::<char>::empty()
        }),
{
    let nv = str_to_vec(name);
    let mut r: Vec<char> = Vec::new();
    r.push('&');
    let mut k: usize = 0;
    while k < nv.len()
        invariant
            k <= nv.len(),
            r@ == seq!['&'] + nv@.take(k as int),
        decreases nv.len() - k,
    {
        r.push(nv[k]);
        k = k + 1;
        assert(r@ =~= seq!['&'] + nv@.take(k as int));
    }
    assert(nv@.take(k as int) =~= nv@);
    if semi {
        r.push(';');
    }
    assert(r@ =~= seq!['&'] + name@ + (if semi {
        seq![';']
    } else {
        Seq::<char>::empty()
    }));
    r
}

fn at_vec_exec(s: &Vec<char>, i: usize, e: usize, p: &Vec<char>) -> (r: bool)
    requires
        e <= s.len(),
    ensures
        r == at(s@, i as int, e as int, p@),
{
    if i > e || p.len() > e - i {
        return false;
    }
    crate::text::matches_at(s, p, i)
}

fn at_exec(s: &Vec<char>, i: usize, e: usize, p: &str) -> (r: bool)
    requires
        e <= s.len(),
    ensures
        r == at(s@, i as int, e as int, p@),
{
    let pv = str_to_vec(p);
    at_vec_exec(s, i, e, &pv)
}

fn named_ref_exec(s: &Vec<char>, i: usize, e: usize, attr: bool) -> (r: Option<(char, usize)>)
    requires
        i < e <= s.len(),
    ensures
        r matches Some((c, j)) ==> named_ref(s@, i as int, e as int, attr) == Some((c, j as int)) && i
            < j <= e,
        r is None ==> named_ref(s@, i as int, e as int, attr) is None,
{
    let mut k: usize = 0;
    while k < REF_COUNT
        invariant
            i < e <= s.len(),
            k <= REF_COUNT,
            ref_with_semicolon(s@, i as int, e as int, 0) == ref_with_semicolon(s@, i as int, e as int, k as int),
        decreases REF_COUNT - k,
    {
        let (n, c, _) = ref_entry_exec(k);
        let p = ref_pattern(n, true);
        if at_vec_exec(s, i, e, &p) {
            return Some((c, i + p.len()));
        }
        k = k + 1;
    }
    let mut k: usize = 0;
    while k < REF_COUNT
        invariant
            i < e <= s.len(),
            k <= REF_COUNT,
            ref_with_semicolon(s@, i as int, e as int, 0) is None,
            ref_without_semicolon(s@, i as int, e as int, 0, attr) == ref_without_semicolon(
                s@,
                i as int,
                e as int,
                k as int,
                attr,
            ),
        decreases REF_COUNT - k,
    {
        let (n, c, legacy) = ref_entry_exec(k);
        if legacy && n.unicode_len() > 0 {
            let p = ref_pattern(n, false);
            if at_vec_exec(s, i, e, &p) {
                let j = i + p.len();
                if attr && j < e && (is_alnum_exec(s[j]) || s[j] == '=') {
                    return None;
                }
                return Some((c, j));
            }
        }
        k = k + 1;
    }
    None
}

fn is_alnum_exec(c: char) -> (r: bool)
    ensures
        r == is_alnum(c),
{
    ('a' <= c && c <= 'z') || ('A' <= c && c <= 'Z') || ('0' <= c && c <= '9')
}

/// A digit of the given base.
pub open spec fn digit_class(c: char, hex: bool) -> bool {
    if hex {
        is_hex_digit(c)
    } else {
        '0' <= c && c <= '9'
    }
}

fn digit_ok(c: char, hex: bool) -> (r: bool)
    ensures
        r == digit_class(c, hex),
{
    if hex {
        ('0' <= c && c <= '9') || ('a' <= c && c <= 'f') || ('A' <= c && c <= 'F')
    } else {
        '0' <= c && c <= '9'
    }
}

fn hex_value_exec(c: char) -> (r: u32)
    requires
        is_hex_digit(c),
    ensures
        r == hex_value(c),
        r < 16,
{
    if '0' <= c && c <= '9' {
        c as u32 - '0' as u32
    } else if 'a' <= c && c <= 'f' {
        c as u32 - 'a' as u32 + 10
    } else {
        c as u32 - 'A' as u32 + 10
    }
}

fn numeric_ref_exec(s: &Vec<char>, i: usize, e: usize) -> (r: Option<(char, usize)>)
    requires
        i < e <= s.len(),
    ensures
        r matches Some((c, j)) ==> numeric_ref(s@, i as int, e as int) == Some((c, j as int)) && i
            < j <= e,
        r is None ==> numeric_ref(s@, i as int, e as int) is None,
{
    proof {
        reveal_strlit("&#");
    }
    if !at_exec(s, i, e, "&#") {
        return None;
    }
    let hex = i + 2 < e && (s[i + 2] == 'x' || s[i + 2] == 'X');
    let lo = if hex {
        i + 3
    } else {
        i + 2
    };
    let mut hi = lo;
    while hi < e && digit_ok(s[hi], hex)
        invariant
            lo <= hi <= e <= s.len(),
            digits_end(s@, lo as int, e as int, hex) == digits_end(s@, hi as int, e as int, hex),
            forall|k: int| lo <= k < hi ==> #[trigger] digit_class(s@[k], hex),
        decreases e - hi,
    {
        hi = hi + 1;
    }
    if hi == lo {
        return None;
    }
    let mut v: u32 = 0;
    if hi - lo <= 7 {
        let mut k = lo;
        while k < hi
            invariant
                lo <= k <= hi <= e <= s.len(),
                hi - lo <= 7,
                forall|m: int| lo <= m < hi ==> #[trigger] digit_class(s@[m], hex),
                v == number_value(s@, lo as int, k as int, hex),
                v < pow16((k - lo) as nat),
            decreases hi - k,
        {
            assert(digit_class(s@[k as int], hex));
            let d = hex_value_exec(s[k]);
            proof {
                lemma_pow16_bound((k - lo) as nat);
            }
            if hex {
                assert(v * 16 + d < pow16((k + 1 - lo) as nat)) by (nonlinear_arith)
                    requires
                        v < pow16((k - lo) as nat),
                        d < 16,
                        pow16((k + 1 - lo) as nat) == pow16((k - lo) as nat) * 16,
                ;
                v = v * 16 + d;
            } else {
                assert(d < 10);
                assert(v * 10 + d < pow16((k + 1 - lo) as nat)) by (nonlinear_arith)
                    requires
                        v < pow16((k - lo) as nat),
                        d < 10,
                        pow16((k + 1 - lo) as nat) == pow16((k - lo) as nat) * 16,
                ;
                v = v * 10 + d;
            }
            k = k + 1;
        }
    }
    let c = if hi - lo <= 7 && v != 0 {
        match char_from_u32(v) {
            Some(c) => c,
            None => '\u{FFFD}',
        }
    } else {
        '\u{FFFD}'
    };
    if hi < e && s[hi] == ';' {
        Some((c, hi + 1))
    } else {
        Some((c, hi))
    }
}

/// Sixteen to the power `e`.
pub open spec fn pow16(e: nat) -> int
    decreases e,
{
    if e == 0 {
        1
    } else {
        pow16((e - 1) as nat) * 16
    }
}

proof fn lemma_pow16_bound(e: nat)
    requires
        e <= 7,
    ensures
        pow16(e) <= 0x1000_0000,
        pow16(e + 1) == pow16(e) * 16,
{
    reveal_with_fuel(pow16, 9);
}

/// Appends the decoded characters of `s[i..e]`.
pub fn decode_exec(s: &Vec<char>, i: usize, e: usize, attr: bool, out: &mut Vec<char>)
    requires
        i <= e <= s.len(),
    ensures
        final(out)@ == old(out)@ + decode(s@, i as int, e as int, attr),
{
    let ghost start = old(out)@;
    let mut k = i;
    while k < e
        invariant
            i <= k <= e <= s.len(),
            start + decode(s@, i as int, e as int, attr) == out@ + decode(s@, k as int, e as int, attr),
        decreases e - k,
    {
        if s[k] == '&' {
            match named_ref_exec(s, k, e, attr) {
                Some((c, j)) => {
                    out.push(c);
                    assert(decode(s@, k as int, e as int, attr) == seq![c] + decode(s@, j as int, e as int, attr));
                    k = j;
                },
                None => match numeric_ref_exec(s, k, e) {
                    Some((c, j)) => {
                        out.push(c);
                        assert(decode(s@, k as int, e as int, attr) == seq![c] + decode(
                            s@,
                            j as int,
                            e as int,
                            attr,
                        ));
                        k = j;
                    },
                    None => {
                        out.push('&');
                        k = k + 1;
                    },
                },
            }
        } else {
            out.push(s[k]);
            k = k + 1;
        }
    }
    assert(decode(s@, k as int, e as int, attr) =~= Seq::<char>::empty());
}

// ---------------------------------------------------------------------------
// Token grammar
// ---------------------------------------------------------------------------

/// A character that ends a tag name.
pub open spec fn is_tag_end(c: char) -> bool {
    is_ascii_ws(c) || c == '/' || c == '>'
}

/// End of a tag name from `i`.
pub open spec fn tag_name_end(s: Seq<char>, i: int) -> int
    decreases s.len() - i,
{
    if 0 <= i < s.len() && !is_tag_end(s[i]) {
        tag_name_end(s, i + 1)
    } else {
        i
    }
}

/// End of an attribute name from `i`.
pub open spec fn attr_name_end(s: Seq<char>, i: int) -> int
    decreases s.len() - i,
{
    if 0 <= i < s.len() && !(is_tag_end(s[i]) || s[i] == '=') {
        attr_name_end(s, i + 1)
    } else {
        i
    }
}

/// End of an unquoted attribute value from `i`.
pub open spec fn unquoted_end(s: Seq<char>, i: int) -> int
    decreases s.len() - i,
{
    if 0 <= i < s.len() && !(is_ascii_ws(s[i]) || s[i] == '>') {
        unquoted_end(s, i + 1)
    } else {
        i
    }
}

/// End of a document type name from `i`.
pub open spec fn doctype_name_end(s: Seq<char>, i: int) -> int
    decreases s.len() - i,
{
    if 0 <= i < s.len() && !(is_ascii_ws(s[i]) || s[i] == '>') {
        doctype_name_end(s, i + 1)
    } else {
        i
    }
}

/// Start of the first `-->` at or after `k`, or the end.
pub open spec fn comment_end(s: Seq<char>, k: int) -> int
    decreases s.len() - k,
{
    if 0 <= k && k + 3 <= s.len() {
        if s[k] == '-' && s[k + 1] == '-' && s[k + 2] == '>' {
            k
        } else {
            comment_end(s, k + 1)
        }
    } else {
        s.len() as int
    }
}

/// An attribute list after adding `name`: a repeated name is dropped, the
/// first occurrence wins.
pub open spec fn add_attr(acc: Seq<AttrView>, name: Seq<char>, value: Option<Seq<char>>) -> Seq<
    AttrView,
> {
    if attr_index(acc, name) is Some {
        acc
    } else {
        acc.push(AttrView { name: name, value: value })
    }
}

/// The attributes of a start tag from `j` on, after `acc`, with the
/// self-closing flag and the position after the `>`; `None` when the input
/// ends inside the tag.
pub open spec fn attrs_from(s: Seq<char>, j: int, acc: Seq<AttrView>) -> Option<
    (Seq<AttrView>, bool, int),
>
    decreases s.len() - j,
{
    let k = skip_ws(s, j);
    if !(0 <= j <= k < s.len()) {
        None
    } else if s[k] == '>' {
        Some((acc, false, k + 1))
    } else if s[k] == '/' {
        if k + 1 < s.len() && s[k + 1] == '>' {
            Some((acc, true, k + 2))
        } else {
            attrs_from(s, k + 1, acc)
        }
    } else {
        let ne = attr_name_end(s, k + 1);
        let name = name_seq(s.subrange(k, ne));
        let m = skip_ws(s, ne);
        if !(k < ne <= m <= s.len()) {
            None
        } else if m < s.len() && s[m] == '=' {
            let v = skip_ws(s, m + 1);
            if !(m < v < s.len()) {
                None
            } else if s[v] == '"' || s[v] == '\'' {
                let close = find_char(s, v + 1, s[v]);
                if !(v < close < s.len()) {
                    None
                } else {
                    attrs_from(s, close + 1, add_attr(acc, name, Some(decode(s, v + 1, close, true))))
                }
            } else {
                let ue = unquoted_end(s, v);
                if v <= ue <= s.len() {
                    attrs_from(s, ue, add_attr(acc, name, Some(decode(s, v, ue, true))))
                } else {
                    None
                }
            }
        } else {
            attrs_from(s, m, add_attr(acc, name, None))
        }
    }
}

/// How the content of an element is read: 0 as markup, 1 as raw text,
/// 2 as text with character references, 3 as raw text to the end.
pub open spec fn raw_kind(name: Seq<char>) -> int {
    if name == "script"@ || name == "style"@ || name == "xmp"@ || name == "iframe"@ || name
        == "noembed"@ || name == "noframes"@ {
        1
    } else if name == "title"@ || name == "textarea"@ {
        2
    } else if name == "plaintext"@ {
        3
    } else {
        0
    }
}

/// An end tag named `name` (in any case) starts at `k`.
pub open spec fn end_tag_at(s: Seq<char>, k: int, name: Seq<char>) -> bool {
    let n = name.len() as int;
    &&& 0 <= k
    &&& k + 2 + n <= s.len()
    &&& s[k] == '<'
    &&& s[k + 1] == '/'
    &&& lower_seq(s.subrange(k + 2, k + 2 + n)) == name
    &&& (k + 2 + n == s.len() || is_tag_end(s[k + 2 + n]))
}

/// The first end tag named `name` at or after `i`, or the end.
pub open spec fn find_end_tag(s: Seq<char>, i: int, name: Seq<char>) -> int
    decreases s.len() - i,
{
    if 0 <= i < s.len() {
        if end_tag_at(s, i, name) {
            i
        } else {
            find_end_tag(s, i + 1, name)
        }
    } else {
        s.len() as int
    }
}

/// The tokens of the markup or text at `i`, and where the next begins.
pub open spec fn step(s: Seq<char>, i: int) -> (Seq<TokenV>, int) {
    let len = s.len() as int;
    if !(0 <= i < len) {
        (Seq::empty(), len)
    } else if s[i] != '<' {
        let k = find_char(s, i, '<');
        (seq![TokenV::Text(decode(s, i, k, false))], k)
    } else if i + 3 < len && s[i + 1] == '!' && s[i + 2] == '-' && s[i + 3] == '-' {
        let a = i + 4;
        if a < len && s[a] == '>' {
            (seq![TokenV::Comment(Seq::empty())], a + 1)
        } else if a < len && a + 1 < len && s[a] == '-' && s[a + 1] == '>' {
            (seq![TokenV::Comment(Seq::empty())], a + 2)
        } else {
            let k = comment_end(s, a);
            if k < len {
                (seq![TokenV::Comment(s.subrange(a, k))], k + 3)
            } else {
                (seq![TokenV::Comment(s.subrange(a, len))], len)
            }
        }
    } else if i + 1 < len && s[i + 1] == '!' {
        if i + 9 <= len && lower_seq(s.subrange(i + 2, i + 9)) == "doctype"@ {
            let p = skip_ws(s, i + 9);
            let ne = doctype_name_end(s, p);
            let k = find_char(s, ne, '>');
            (
                seq![TokenV::Doctype(name_seq(s.subrange(p, ne)), doctype_ids(s, ne, k))],
                if k < len {
                    k + 1
                } else {
                    len
                },
            )
        } else {
            bogus_comment(s, i + 2)
        }
    } else if i + 1 < len && s[i + 1] == '?' {
        bogus_comment(s, i + 1)
    } else if i + 1 < len && s[i + 1] == '/' {
        if i + 2 < len && is_alpha(s[i + 2]) {
            let ne = tag_name_end(s, i + 2);
            let k = find_char(s, ne, '>');
            if k < len {
                (seq![TokenV::EndTag(name_seq(s.subrange(i + 2, ne)))], k + 1)
            } else {
                (Seq::empty(), len)
            }
        } else if i + 2 < len && s[i + 2] == '>' {
            (Seq::empty(), i + 3)
        } else if i + 2 >= len {
            (seq![TokenV::Text(seq!['<', '/'])], len)
        } else {
            bogus_comment(s, i + 2)
        }
    } else if i + 1 < len && is_alpha(s[i + 1]) {
        start_tag(s, i)
    } else {
        (seq![TokenV::Text(seq!['<'])], i + 1)
    }
}

/// The name under which a document type keeps its public identifier.
pub open spec fn public_key() -> Seq<char> {
    seq!['p', 'u', 'b', 'l', 'i', 'c']
}

/// The name under which a document type keeps its system identifier.
pub open spec fn system_key() -> Seq<char> {
    seq!['s', 'y', 's', 't', 'e', 'm']
}

/// A quoted string at `i` that closes before `k`, and the position after
/// it.
pub open spec fn quoted_at(s: Seq<char>, i: int, k: int) -> Option<(Seq<char>, int)> {
    if 0 <= i < k && k <= s.len() && (s[i] == '"' || s[i] == '\'') {
        let c = find_char(s, i + 1, s[i]);
        if c < k {
            Some((s.subrange(i + 1, c), c + 1))
        } else {
            None
        }
    } else {
        None
    }
}

/// The identifiers of a document type between its name (ending at `a`)
/// and its `>` at `k`: `PUBLIC "p"` with an optional `"s"` after it, or
/// `SYSTEM "s"`, keywords in any case.
pub open spec fn doctype_ids(s: Seq<char>, a: int, k: int) -> Seq<AttrView> {
    let p = skip_ws(s, a);
    if 0 <= a <= p && p + 6 <= k && k <= s.len() && lower_seq(s.subrange(p, p + 6)) == public_key() {
        match quoted_at(s, skip_ws(s, p + 6), k) {
            Some((pid, f)) => match quoted_at(s, skip_ws(s, f), k) {
                Some((sid, _)) => seq![
                    AttrView { name: public_key(), value: Some(pid) },
                    AttrView { name: system_key(), value: Some(sid) },
                ],
                None => seq![AttrView { name: public_key(), value: Some(pid) }],
            },
            None => Seq::empty(),
        }
    } else if 0 <= a <= p && p + 6 <= k && k <= s.len() && lower_seq(s.subrange(p, p + 6)) == system_key() {
        match quoted_at(s, skip_ws(s, p + 6), k) {
            Some((sid, _)) => seq![AttrView { name: system_key(), value: Some(sid) }],
            None => Seq::empty(),
        }
    } else {
        Seq::empty()
    }
}

/// Identifiers of a document type are a well-formed attribute list.
proof fn lemma_doctype_ids_ok(s: Seq<char>, a: int, k: int)
    ensures
        attrs_ok(doctype_ids(s, a, k)),
{
    assert(lower_seq(public_key()) =~= public_key());
    assert(lower_seq(system_key()) =~= system_key());
    assert(!public_key().contains('\0')) by {
        if public_key().contains('\0') {
            let i = choose|i: int| 0 <= i < 6 && public_key()[i] == '\0';
        }
    }
    assert(!system_key().contains('\0')) by {
        if system_key().contains('\0') {
            let i = choose|i: int| 0 <= i < 6 && system_key()[i] == '\0';
        }
    }
    assert(public_key() != system_key()) by {
        assert(public_key()[0] != system_key()[0]);
    }
}

/// A comment of everything from `a` to the next `>`.
pub open spec fn bogus_comment(s: Seq<char>, a: int) -> (Seq<TokenV>, int) {
    let k = find_char(s, a, '>');
    (
        seq![TokenV::Comment(s.subrange(a, k))],
        if k < s.len() {
            k + 1
        } else {
            s.len() as int
        },
    )
}

/// A start tag at `i`, followed by the raw content of elements whose
/// content is not markup. A leading newline of `pre`, `listing` and
/// `textarea` content is dropped.
pub open spec fn start_tag(s: Seq<char>, i: int) -> (Seq<TokenV>, int) {
    let len = s.len() as int;
    let ne = tag_name_end(s, i + 1);
    let name = name_seq(s.subrange(i + 1, ne));
    match attrs_from(s, ne, Seq::empty()) {
        None => (Seq::empty(), len),
        Some((attrs, sc, e)) => {
            let tag = TokenV::StartTag(name, attrs, sc);
            let e2 = if (name == "pre"@ || name == "listing"@ || name == "textarea"@) && e < len
                && s[e] == '\n' {
                e + 1
            } else {
                e
            };
            let kind = raw_kind(name);
            if kind == 0 {
                (seq![tag], e2)
            } else {
                let k = if kind == 3 {
                    len
                } else {
                    find_end_tag(s, e2, name)
                };
                let content = if kind == 2 {
                    decode(s, e2, k, false)
                } else {
                    s.subrange(e2, k)
                };
                (
                    seq![tag] + if content.len() > 0 {
                        seq![TokenV::Text(content)]
                    } else {
                        Seq::<TokenV>::empty()
                    },
                    k,
                )
            }
        },
    }
}

/// The tokens of `s` from `i` on.
pub open spec fn tokenize_from(s: Seq<char>, i: int) -> Seq<TokenV>
    decreases s.len() - i,
{
    if 0 <= i < s.len() {
        let st = step(s, i);
        if i < st.1 <= s.len() {
            st.0 + tokenize_from(s, st.1)
        } else {
            st.0
        }
    } else {
        Seq::empty()
    }
}

/// The tokens of HTML text.
pub open spec fn tokenize(s: Seq<char>) -> Seq<TokenV> {
    tokenize_from(s, 0)
}

/// A start tag's attributes, and a document type's identifiers, have
/// lower-case names without NUL, none of them twice.
pub open spec fn token_ok(t: TokenV) -> bool {
    &&& t matches TokenV::StartTag(_, a, _) ==> attrs_ok(a)
    &&& t matches TokenV::Doctype(_, a) ==> attrs_ok(a)
}

/// Attribute lists built from a well-formed start stay well formed.
proof fn lemma_attrs_from_ok(s: Seq<char>, j: int, acc: Seq<AttrView>)
    requires
        attrs_ok(acc),
    ensures
        attrs_from(s, j, acc) matches Some(r) ==> attrs_ok(r.0),
    decreases s.len() - j,
{
    let k = skip_ws(s, j);
    if !(0 <= j <= k < s.len()) {
    } else if s[k] == '>' {
    } else if s[k] == '/' {
        if !(k + 1 < s.len() && s[k + 1] == '>') {
            lemma_attrs_from_ok(s, k + 1, acc);
        }
    } else {
        let ne = attr_name_end(s, k + 1);
        let name = name_seq(s.subrange(k, ne));
        let m = skip_ws(s, ne);
        lemma_name_seq(s.subrange(k, ne));
        if k < ne <= m <= s.len() {
            if m < s.len() && s[m] == '=' {
                let v = skip_ws(s, m + 1);
                if m < v < s.len() {
                    if s[v] == '"' || s[v] == '\'' {
                        let close = find_char(s, v + 1, s[v]);
                        if v < close < s.len() {
                            let val = Some(decode(s, v + 1, close, true));
                            lemma_add_attr_ok(acc, name, val);
                            lemma_attrs_from_ok(s, close + 1, add_attr(acc, name, val));
                        }
                    } else {
                        let ue = unquoted_end(s, v);
                        if v <= ue <= s.len() {
                            let val = Some(decode(s, v, ue, true));
                            lemma_add_attr_ok(acc, name, val);
                            lemma_attrs_from_ok(s, ue, add_attr(acc, name, val));
                        }
                    }
                }
            } else {
                lemma_add_attr_ok(acc, name, None);
                lemma_attrs_from_ok(s, m, add_attr(acc, name, None));
            }
        }
    }
}

/// A start tag's attribute list ends within the input.
pub(crate) proof fn lemma_attrs_from_end(s: Seq<char>, j: int, acc: Seq<AttrView>)
    ensures
        attrs_from(s, j, acc) matches Some(r) ==> 0 <= r.2 <= s.len(),
    decreases s.len() - j,
{
    let k = skip_ws(s, j);
    if !(0 <= j <= k < s.len()) {
    } else if s[k] == '>' {
    } else if s[k] == '/' {
        if !(k + 1 < s.len() && s[k + 1] == '>') {
            lemma_attrs_from_end(s, k + 1, acc);
        }
    } else {
        let ne = attr_name_end(s, k + 1);
        let name = name_seq(s.subrange(k, ne));
        let m = skip_ws(s, ne);
        if k < ne <= m <= s.len() {
            if m < s.len() && s[m] == '=' {
                let v = skip_ws(s, m + 1);
                if m < v < s.len() {
                    if s[v] == '"' || s[v] == '\'' {
                        let close = find_char(s, v + 1, s[v]);
                        if v < close < s.len() {
                            lemma_attrs_from_end(s, close + 1, add_attr(acc, name, Some(decode(s, v + 1, close, true))));
                        }
                    } else {
                        let ue = unquoted_end(s, v);
                        if v <= ue <= s.len() {
                            lemma_attrs_from_end(s, ue, add_attr(acc, name, Some(decode(s, v, ue, true))));
                        }
                    }
                }
            } else {
                lemma_attrs_from_end(s, m, add_attr(acc, name, None));
            }
        }
    }
}

proof fn lemma_add_attr_ok(acc: Seq<AttrView>, name: Seq<char>, value: Option<Seq<char>>)
    requires
        attrs_ok(acc),
        lower_seq(name) == name,
        !name.contains('\0'),
    ensures
        attrs_ok(add_attr(acc, name, value)),
{
    if attr_index(acc, name) is None {
        lemma_attrs_set_ok(acc, name, value);
        assert(add_attr(acc, name, value) == attrs_set(acc, name, value));
    }
}

/// The tokens of one step carry well-formed attribute lists.
proof fn lemma_step_ok(s: Seq<char>, i: int)
    ensures
        forall|k: int| 0 <= k < step(s, i).0.len() ==> token_ok(#[trigger] step(s, i).0[k]),
{
    let len = s.len() as int;
    if 0 <= i < len && s[i] == '<' && i + 9 <= len && s[i + 1] == '!' {
        let p = skip_ws(s, i + 9);
        let ne = doctype_name_end(s, p);
        lemma_doctype_ids_ok(s, ne, find_char(s, ne, '>'));
    }
    if 0 <= i < len && s[i] == '<' && !(i + 3 < len && s[i + 1] == '!' && s[i + 2] == '-' && s[i + 3]
        == '-') && !(i + 1 < len && s[i + 1] == '!') && !(i + 1 < len && s[i + 1] == '?') && !(i
        + 1 < len && s[i + 1] == '/') && i + 1 < len && is_alpha(s[i + 1]) {
        let ne = tag_name_end(s, i + 1);
        lemma_attrs_from_ok(s, ne, Seq::empty());
        assert(step(s, i) == start_tag(s, i));
    }
}

/// Every start tag of the tokens from `i` on has a well-formed attribute
/// list.
pub proof fn lemma_tokenize_from_ok(s: Seq<char>, i: int)
    ensures
        forall|k: int|
            0 <= k < tokenize_from(s, i).len() ==> token_ok(#[trigger] tokenize_from(s, i)[k]),
    decreases s.len() - i,
{
    if 0 <= i < s.len() {
        let st = step(s, i);
        lemma_step_ok(s, i);
        if i < st.1 <= s.len() {
            lemma_tokenize_from_ok(s, st.1);
            let r = tokenize_from(s, st.1);
            assert forall|k: int| 0 <= k < (st.0 + r).len() implies token_ok(#[trigger] (st.0 + r)[k]) by {
                if k < st.0.len() {
                    assert((st.0 + r)[k] == st.0[k]);
                } else {
                    assert((st.0 + r)[k] == r[k - st.0.len()]);
                }
            }
        }
    }
}

// ---------------------------------------------------------------------------
// Executable tokenizer
// ---------------------------------------------------------------------------

fn tag_end_char(c: char) -> (r: bool)
    ensures
        r == is_tag_end(c),
{
    ascii_ws(c) || c == '/' || c == '>'
}

fn tag_name_end_exec(s: &Vec<char>, i: usize) -> (r: usize)
    requires
        i <= s.len(),
    ensures
        r == tag_name_end(s@, i as int),
        i <= r <= s.len(),
{
    let mut j = i;
    while j < s.len() && !tag_end_char(s[j])
        invariant
            i <= j <= s.len(),
            tag_name_end(s@, i as int) == tag_name_end(s@, j as int),
        decreases s.len() - j,
    {
        j = j + 1;
    }
    j
}

fn attr_name_end_exec(s: &Vec<char>, i: usize) -> (r: usize)
    requires
        i <= s.len(),
    ensures
        r == attr_name_end(s@, i as int),
        i <= r <= s.len(),
{
    let mut j = i;
    while j < s.len() && !(tag_end_char(s[j]) || s[j] == '=')
        invariant
            i <= j <= s.len(),
            attr_name_end(s@, i as int) == attr_name_end(s@, j as int),
        decreases s.len() - j,
    {
        j = j + 1;
    }
    j
}

fn unquoted_end_exec(s: &Vec<char>, i: usize) -> (r: usize)
    requires
        i <= s.len(),
    ensures
        r == unquoted_end(s@, i as int),
        i <= r <= s.len(),
{
    let mut j = i;
    while j < s.len() && !(ascii_ws(s[j]) || s[j] == '>')
        invariant
            i <= j <= s.len(),
            unquoted_end(s@, i as int) == unquoted_end(s@, j as int),
        decreases s.len() - j,
    {
        j = j + 1;
    }
    j
}

fn doctype_name_end_exec(s: &Vec<char>, i: usize) -> (r: usize)
    requires
        i <= s.len(),
    ensures
        r == doctype_name_end(s@, i as int),
        i <= r <= s.len(),
{
    let mut j = i;
    while j < s.len() && !(ascii_ws(s[j]) || s[j] == '>')
        invariant
            i <= j <= s.len(),
            doctype_name_end(s@, i as int) == doctype_name_end(s@, j as int),
        decreases s.len() - j,
    {
        j = j + 1;
    }
    j
}

fn comment_end_exec(s: &Vec<char>, a: usize) -> (r: usize)
    requires
        a <= s.len(),
    ensures
        r == comment_end(s@, a as int),
        a <= r <= s.len(),
        r < s.len() ==> r + 3 <= s.len(),
{
    let mut k = a;
    while s.len() >= 3 && k <= s.len() - 3
        invariant
            a <= k <= s.len(),
            comment_end(s@, a as int) == comment_end(s@, k as int),
        decreases s.len() - k,
    {
        if s[k] == '-' && s[k + 1] == '-' && s[k + 2] == '>' {
            return k;
        }
        k = k + 1;
    }
    s.len()
}

fn end_tag_at_exec(s: &Vec<char>, k: usize, name: &Vec<char>) -> (r: bool)
    requires
        k <= s.len(),
    ensures
        r == end_tag_at(s@, k as int, name@),
{
    let n = name.len();
    if k > s.len() || n > s.len() - k || s.len() - k - n < 2 {
        return false;
    }
    if s[k] != '<' || s[k + 1] != '/' {
        return false;
    }
    let raw = slice_vec(s, k + 2, k + 2 + n);
    let low = to_lower_vec(&raw);
    if !vec_eq(&low, name) {
        return false;
    }
    k + 2 + n == s.len() || tag_end_char(s[k + 2 + n])
}

fn find_end_tag_exec(s: &Vec<char>, i: usize, name: &Vec<char>) -> (r: usize)
    requires
        i <= s.len(),
    ensures
        r == find_end_tag(s@, i as int, name@),
        i <= r <= s.len(),
{
    let mut k = i;
    while k < s.len()
        invariant
            i <= k <= s.len(),
            find_end_tag(s@, i as int, name@) == find_end_tag(s@, k as int, name@),
        decreases s.len() - k,
    {
        if end_tag_at_exec(s, k, name) {
            return k;
        }
        k = k + 1;
    }
    k
}

fn add_attr_exec(acc: &mut Vec<Attribute>, name: Vec<char>, value: Option<Vec<char>>)
    ensures
        final(acc)@.map_values(|x: Attribute| x@) == add_attr(
            old(acc)@.map_values(|x: Attribute| x@),
            name@,
            crate::dom::opt_chars(value),
        ),
{
    let ghost av = acc@.map_values(|x: Attribute| x@);
    let mut i: usize = 0;
    while i < acc.len()
        invariant
            i <= acc.len(),
            av == acc@.map_values(|x: Attribute| x@),
            attr_index(av, name@) == crate::dom::attr_index_from(av, name@, i as int),
        decreases acc.len() - i,
    {
        assert(av[i as int] == acc@[i as int]@);
        if vec_eq(&acc[i].name, &name) {
            return ;
        }
        i = i + 1;
    }
    let ghost nm = name@;
    let ghost vv = crate::dom::opt_chars(value);
    acc.push(Attribute { name, value });
    assert(acc@.map_values(|x: Attribute| x@) =~= av.push(AttrView { name: nm, value: vv }));
}

fn attrs_exec(s: &Vec<char>, j0: usize) -> (r: Option<(Vec<Attribute>, bool, usize)>)
    requires
        j0 <= s.len(),
    ensures
        r matches Some((a, sc, e)) ==> attrs_from(s@, j0 as int, Seq::empty()) == Some(
            (a@.map_values(|x: Attribute| x@), sc, e as int),
        ) && j0 < e <= s.len(),
        r is None ==> attrs_from(s@, j0 as int, Seq::empty()) is None,
{
    let mut acc: Vec<Attribute> = Vec::new();
    assert(acc@.map_values(|x: Attribute| x@) =~= Seq::<AttrView>::empty());
    let mut j = j0;
    loop
        invariant
            j0 <= j <= s.len(),
            attrs_from(s@, j0 as int, Seq::empty()) == attrs_from(
                s@,
                j as int,
                acc@.map_values(|x: Attribute| x@),
            ),
        decreases s.len() - j,
    {
        let k = skip_ws_exec(s, j);
        if k >= s.len() {
            return None;
        }
        if s[k] == '>' {
            return Some((acc, false, k + 1));
        }
        if s[k] == '/' {
            if k + 1 < s.len() && s[k + 1] == '>' {
                return Some((acc, true, k + 2));
            }
            j = k + 1;
        } else {
            let ne = attr_name_end_exec(s, k + 1);
            let raw = slice_vec(s, k, ne);
            let name = to_name_vec(&raw);
            let m = skip_ws_exec(s, ne);
            if m < s.len() && s[m] == '=' {
                let v = skip_ws_exec(s, m + 1);
                if !(m < v && v < s.len()) {
                    return None;
                }
                if s[v] == '"' || s[v] == '\'' {
                    let close = find_char_exec(s, v + 1, s[v]);
                    if !(close < s.len()) {
                        return None;
                    }
                    let mut val: Vec<char> = Vec::new();
                    decode_exec(s, v + 1, close, true, &mut val);
                    assert(val@ =~= decode(s@, v + 1, close as int, true));
                    add_attr_exec(&mut acc, name, Some(val));
                    j = close + 1;
                } else {
                    let ue = unquoted_end_exec(s, v);
                    let mut val: Vec<char> = Vec::new();
                    decode_exec(s, v, ue, true, &mut val);
                    assert(val@ =~= decode(s@, v as int, ue as int, true));
                    add_attr_exec(&mut acc, name, Some(val));
                    if ue == j {
                        return None;
                    }
                    j = ue;
                }
            } else {
                add_attr_exec(&mut acc, name, None);
                j = m;
            }
        }
    }
}

fn raw_kind_exec(name: &Vec<char>) -> (r: u8)
    ensures
        r as int == raw_kind(name@),
{
    let is = |kw: &str| -> (b: bool)
        ensures
            b == (name@ == kw@),
        {
            let k = str_to_vec(kw);
            vec_eq(name, &k)
        };
    if is("script") || is("style") || is("xmp") || is("iframe") || is("noembed") || is(
        "noframes",
    ) {
        1
    } else if is("title") || is("textarea") {
        2
    } else if is("plaintext") {
        3
    } else {
        0
    }
}

fn push_token(out: &mut Vec<Token>, t: Token)
    ensures
        tokens_view(*final(out)) == tokens_view(*old(out)).push(t@),
{
    let ghost before = tokens_view(*out);
    let ghost tv = t@;
    out.push(t);
    assert(tokens_view(*out) =~= before.push(tv));
}

fn bogus_comment_exec(s: &Vec<char>, a: usize, out: &mut Vec<Token>) -> (r: usize)
    requires
        a <= s.len(),
    ensures
        tokens_view(*final(out)) == tokens_view(*old(out)) + bogus_comment(s@, a as int).0,
        r == bogus_comment(s@, a as int).1,
        a <= r <= s.len(),
{
    let k = find_char_exec(s, a, '>');
    let data = slice_vec(s, a, k);
    push_token(out, Token::Comment(data));
    assert(seq![TokenV::Comment(s@.subrange(a as int, k as int))] == bogus_comment(s@, a as int).0);
    if k < s.len() {
        k + 1
    } else {
        s.len()
    }
}

fn keyword(name: &Vec<char>, kw: &str) -> (b: bool)
    ensures
        b == (name@ == kw@),
{
    let k = str_to_vec(kw);
    vec_eq(name, &k)
}

fn quoted_exec(s: &Vec<char>, i: usize, k: usize) -> (r: Option<(Vec<char>, usize)>)
    requires
        k <= s.len(),
    ensures
        r matches Some((v, e)) ==> quoted_at(s@, i as int, k as int) == Some((v@, e as int)) && e <= k,
        r is None ==> quoted_at(s@, i as int, k as int) is None,
{
    if i < k && (s[i] == '"' || s[i] == '\'') {
        let c = find_char_exec(s, i + 1, s[i]);
        if c < k {
            return Some((slice_vec(s, i + 1, c), c + 1));
        }
    }
    None
}

fn id_attr(key: &str, v: Vec<char>) -> (a: Attribute)
    ensures
        a@ == (AttrView { name: key@, value: Some(v@) }),
{
    Attribute { name: str_to_vec(key), value: Some(v) }
}

fn doctype_ids_exec(s: &Vec<char>, a: usize, k: usize) -> (r: Vec<Attribute>)
    requires
        a <= k <= s.len(),
    ensures
        r@.map_values(|x: Attribute| x@) == doctype_ids(s@, a as int, k as int),
{
    proof {
        reveal_strlit("public");
        reveal_strlit("system");
        assert("public"@ =~= public_key());
        assert("system"@ =~= system_key());
    }
    let mut r: Vec<Attribute> = Vec::new();
    let p = skip_ws_exec(s, a);
    if p <= k && k - p >= 6 {
        let raw = slice_vec(s, p, p + 6);
        let low = to_lower_vec(&raw);
        if keyword(&low, "public") {
            let q = skip_ws_exec(s, p + 6);
            if let Some((pid, f)) = quoted_exec(s, q, k) {
                r.push(id_attr("public", pid));
                let q2 = skip_ws_exec(s, f);
                if let Some((sid, _)) = quoted_exec(s, q2, k) {
                    r.push(id_attr("system", sid));
                }
            }
        } else if keyword(&low, "system") {
            let q = skip_ws_exec(s, p + 6);
            if let Some((sid, _)) = quoted_exec(s, q, k) {
                r.push(id_attr("system", sid));
            }
        }
    }
    assert(r@.map_values(|x: Attribute| x@) =~= doctype_ids(s@, a as int, k as int));
    r
}

fn start_tag_exec(s: &Vec<char>, i: usize, out: &mut Vec<Token>) -> (r: usize)
    requires
        i + 1 < s.len(),
    ensures
        tokens_view(*final(out)) == tokens_view(*old(out)) + start_tag(s@, i as int).0,
        r == start_tag(s@, i as int).1,
        i < r <= s.len(),
{
    let len = s.len();
    let ne = tag_name_end_exec(s, i + 1);
    let raw = slice_vec(s, i + 1, ne);
    let name = to_name_vec(&raw);
    let (attrs, sc, e) = match attrs_exec(s, ne) {
        Some(x) => x,
        None => {
            assert(tokens_view(*out) =~= tokens_view(*out) + Seq::<TokenV>::empty());
            return len;
        },
    };
    let e2 = if (keyword(&name, "pre") || keyword(&name, "listing") || keyword(&name, "textarea"))
        && e < len && s[e] == '\n' {
        e + 1
    } else {
        e
    };
    let kind = raw_kind_exec(&name);
    let ghost tag = TokenV::StartTag(name@, attrs@.map_values(|x: Attribute| x@), sc);
    if kind == 0 {
        push_token(out, Token::StartTag(name, attrs, sc));
        return e2;
    }
    let k = if kind == 3 {
        len
    } else {
        find_end_tag_exec(s, e2, &name)
    };
    let mut content: Vec<char> = Vec::new();
    if kind == 2 {
        decode_exec(s, e2, k, false, &mut content);
        assert(content@ =~= decode(s@, e2 as int, k as int, false));
    } else {
        content = slice_vec(s, e2, k);
    }
    push_token(out, Token::StartTag(name, attrs, sc));
    if content.len() > 0 {
        push_token(out, Token::Text(content));
    }
    k
}

fn step_exec(s: &Vec<char>, i: usize, out: &mut Vec<Token>) -> (r: usize)
    requires
        i < s.len(),
    ensures
        tokens_view(*final(out)) == tokens_view(*old(out)) + step(s@, i as int).0,
        r == step(s@, i as int).1,
        i < r <= s.len(),
{
    let len = s.len();
    if s[i] != '<' {
        let k = find_char_exec(s, i, '<');
        let mut t: Vec<char> = Vec::new();
        decode_exec(s, i, k, false, &mut t);
        assert(t@ =~= decode(s@, i as int, k as int, false));
        push_token(out, Token::Text(t));
        return k;
    }
    if len - i > 3 && s[i + 1] == '!' && s[i + 2] == '-' && s[i + 3] == '-' {
        let a = i + 4;
        if a < len && s[a] == '>' {
            let empty: Vec<char> = Vec::new();
            assert(empty@ =~= Seq::<char>::empty());
            push_token(out, Token::Comment(empty));
            return a + 1;
        } else if a < len && a + 1 < len && s[a] == '-' && s[a + 1] == '>' {
            let empty: Vec<char> = Vec::new();
            assert(empty@ =~= Seq::<char>::empty());
            push_token(out, Token::Comment(empty));
            return a + 2;
        } else {
            let k = comment_end_exec(s, a);
            if k < len {
                push_token(out, Token::Comment(slice_vec(s, a, k)));
                return k + 3;
            } else {
                push_token(out, Token::Comment(slice_vec(s, a, len)));
                return len;
            }
        }
    }
    if i + 1 < len && s[i + 1] == '!' {
        let is_doctype = if len - i >= 9 {
            let raw = slice_vec(s, i + 2, i + 9);
            let low = to_lower_vec(&raw);
            keyword(&low, "doctype")
        } else {
            false
        };
        if is_doctype {
            let p = skip_ws_exec(s, i + 9);
            let ne = doctype_name_end_exec(s, p);
            let k = find_char_exec(s, ne, '>');
            let raw = slice_vec(s, p, ne);
            let ids = doctype_ids_exec(s, ne, k);
            push_token(out, Token::Doctype(to_name_vec(&raw), ids));
            return if k < len {
                k + 1
            } else {
                len
            };
        } else {
            return bogus_comment_exec(s, i + 2, out);
        }
    }
    if i + 1 < len && s[i + 1] == '?' {
        return bogus_comment_exec(s, i + 1, out);
    }
    if i + 1 < len && s[i + 1] == '/' {
        if i + 2 < len && (('a' <= s[i + 2] && s[i + 2] <= 'z') || ('A' <= s[i + 2] && s[i + 2]
            <= 'Z')) {
            let ne = tag_name_end_exec(s, i + 2);
            let k = find_char_exec(s, ne, '>');
            if k < len {
                let raw = slice_vec(s, i + 2, ne);
                push_token(out, Token::EndTag(to_name_vec(&raw)));
                return k + 1;
            } else {
                assert(tokens_view(*out) =~= tokens_view(*out) + Seq::<TokenV>::empty());
                return len;
            }
        } else if i + 2 < len && s[i + 2] == '>' {
            assert(tokens_view(*out) =~= tokens_view(*out) + Seq::<TokenV>::empty());
            return i + 3;
        } else if i + 2 >= len {
            let t = vec!['<', '/'];
            assert(t@ =~= seq!['<', '/']);
            push_token(out, Token::Text(t));
            return len;
        } else {
            return bogus_comment_exec(s, i + 2, out);
        }
    }
    if i + 1 < len && (('a' <= s[i + 1] && s[i + 1] <= 'z') || ('A' <= s[i + 1] && s[i + 1]
        <= 'Z')) {
        return start_tag_exec(s, i, out);
    }
    let t = vec!['<'];
    assert(t@ =~= seq!['<']);
    push_token(out, Token::Text(t));
    i + 1
}

/// The tokens of HTML text.
pub fn tokenize_exec(s: &Vec<char>) -> (r: Vec<Token>)
    ensures
        tokens_view(r) == tokenize(s@),
{
    let mut out: Vec<Token> = Vec::new();
    assert(tokens_view(out) =~= Seq::<TokenV>::empty());
    let mut i: usize = 0;
    while i < s.len()
        invariant
            i <= s.len(),
            tokenize(s@) == tokens_view(out) + tokenize_from(s@, i as int),
        decreases s.len() - i,
    {
        let ghost before = tokens_view(out);
        let j = step_exec(s, i, &mut out);
        assert(tokenize_from(s@, i as int) == step(s@, i as int).0 + tokenize_from(s@, j as int));
        assert(tokens_view(out) + tokenize_from(s@, j as int) =~= before + (step(s@, i as int).0
            + tokenize_from(s@, j as int)));
        i = j;
    }
    assert(tokens_view(out) + tokenize_from(s@, i as int) =~= tokens_view(out));
    out
}

} // verus!
