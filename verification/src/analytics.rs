//! Parsing of the tagger's line-oriented output: one line per token, a tab,
//! then comma-separated features, with `*` for an absent feature, `+` for
//! lists and `/` inside compound-morpheme entries. Also the inverse
//! direction: formatting an accepted noun as a user-dictionary row.

use crate::chars::{chars_to_string, owned, str_chars};
use vstd::string::StrSliceExecFns;
use vstd::string::StringExecFns;
use crate::hangul::{has_support, spec_has_support};
use crate::strset::str_views;
use vstd::prelude::*;

verus! {

/// A line of tagger output could not be parsed.
#[derive(Clone, Copy, PartialEq, Eq, Debug)]
pub enum ParseError {
    /// A required feature field is missing or ill-formed.
    Malformed,
    /// The noun to format is empty.
    EmptyNoun,
}

/// The first index at or after `i` holding `sep`, or the length.
pub open spec fn find_from(s: Seq<char>, sep: char, i: int) -> int
    decreases s.len() - i,
{
    if i < 0 || i >= s.len() {
        s.len() as int
    } else if s[i] == sep {
        i
    } else {
        find_from(s, sep, i + 1)
    }
}

/// `find_from` stays between its start and the length.
pub proof fn lemma_find_from_bounds(s: Seq<char>, sep: char, i: int)
    ensures
        0 <= i <= s.len() ==> i <= find_from(s, sep, i) <= s.len(),
    decreases s.len() - i,
{
    if 0 <= i < s.len() && s[i] != sep {
        lemma_find_from_bounds(s, sep, i + 1);
    }
}

/// The fields of `s` split at `sep`; an empty string is one empty field.
pub open spec fn split_by_from(s: Seq<char>, sep: char, i: int) -> Seq<Seq<char>>
    decreases s.len() - i,
    via split_by_from_dec
{
    let k = find_from(s, sep, i);
    if i < 0 || k >= s.len() {
        seq![s.subrange(i, s.len() as int)]
    } else {
        seq![s.subrange(i, k)] + split_by_from(s, sep, k + 1)
    }
}

#[via_fn]
proof fn split_by_from_dec(s: Seq<char>, sep: char, i: int) {
    if 0 <= i <= s.len() {
        lemma_find_from_bounds(s, sep, i);
    }
}

/// The fields of `s` split at `sep`.
pub open spec fn split_by(s: Seq<char>, sep: char) -> Seq<Seq<char>> {
    split_by_from(s, sep, 0)
}

/// `find_from` is where the separator first stands.
proof fn lemma_find_from_skip(s: Seq<char>, sep: char, a: int, b: int)
    requires
        0 <= a <= b <= s.len(),
        forall|t: int| a <= t < b ==> s[t] != sep,
    ensures
        find_from(s, sep, a) == find_from(s, sep, b),
    decreases b - a,
{
    if a < b {
        lemma_find_from_skip(s, sep, a + 1, b);
    }
}

fn find_sep(chars: &Vec<char>, start: usize, sep: char) -> (r: usize)
    requires
        start <= chars@.len(),
    ensures
        start <= r <= chars@.len(),
        r == find_from(chars@, sep, start as int),
{
    let n = chars.len();
    let mut i: usize = start;
    while i < n
        invariant
            start <= i <= n,
            n == chars@.len(),
            forall|t: int| start <= t < i ==> chars@[t] != sep,
        decreases n - i,
    {
        if chars[i] == sep {
            proof {
                lemma_find_from_skip(chars@, sep, start as int, i as int);
            }
            return i;
        }
        i = i + 1;
    }
    proof {
        lemma_find_from_skip(chars@, sep, start as int, n as int);
    }
    n
}

/// Splits a string at a separator, as `split_by` says.
pub fn split_string(s: &str, sep: char) -> (r: Vec<String>)
    ensures
        str_views(r@) == split_by(s@, sep),
        r@.len() >= 1,
{
    let chars = str_chars(s);
    let n = chars.len();
    let mut r: Vec<String> = Vec::new();
    let mut start: usize = 0;
    loop
        invariant
            start <= n,
            n == chars@.len(),
            chars@ == s@,
            str_views(r@) + split_by_from(s@, sep, start as int) == split_by(s@, sep),
            split_by(s@, sep).len() >= 1,
        decreases n - start,
    {
        let k = find_sep(&chars, start, sep);
        let field = chars_to_string(&chars, start, k);
        let ghost pre = r@;
        r.push(field);
        proof {
            assert(str_views(r@) =~= str_views(pre).push(chars@.subrange(start as int, k as int)));
        }
        if k == n {
            proof {
                assert(split_by_from(s@, sep, start as int) == seq![
                    s@.subrange(start as int, s@.len() as int),
                ]);
                assert(str_views(r@) =~= split_by(s@, sep));
            }
            return r;
        }
        proof {
            assert(split_by_from(s@, sep, start as int) == seq![
                s@.subrange(start as int, k as int),
            ] + split_by_from(s@, sep, k + 1));
            assert(str_views(r@) + split_by_from(s@, sep, k + 1) =~= split_by(s@, sep));
        }
        start = k + 1;
    }
}

/// Whether a string is the placeholder `*`.
pub open spec fn is_star(s: Seq<char>) -> bool {
    s =~= seq!['*']
}

/// Decides `is_star`.
pub fn star(s: &String) -> (r: bool)
    ensures
        r == is_star(s@),
{
    let st = s.as_str();
    let r = st.unicode_len() == 1 && st.get_char(0) == '*';
    proof {
        if r {
            assert(s@ =~= seq!['*']);
        }
    }
    r
}

/// `*` stands for an absent feature.
pub open spec fn spec_asterisk_as_none(s: Seq<char>) -> Option<Seq<char>> {
    if is_star(s) {
        None
    } else {
        Some(s)
    }
}

/// Turns the placeholder `*` into `None` and keeps any other value.
pub fn asterisk_as_none(s: String) -> (r: Option<String>)
    ensures
        match r {
            Some(v) => spec_asterisk_as_none(s@) == Some(v@),
            None => spec_asterisk_as_none(s@) is None,
        },
{
    if star(&s) {
        None
    } else {
        Some(s)
    }
}

/// One analyzed morpheme: its surface form and its part-of-speech tag.
#[derive(Debug)]
pub struct Morpheme {
    pub token: String,
    pub tag: String,
}

/// The mathematical content of a `Morpheme`.
pub ghost struct MorphemeV {
    pub token: Seq<char>,
    pub tag: Seq<char>,
}

impl View for Morpheme {
    type V = MorphemeV;

    open spec fn view(&self) -> MorphemeV {
        MorphemeV { token: self.token@, tag: self.tag@ }
    }
}

/// The tag the lookup table gives a token, searched front to back.
pub open spec fn lookup_tag(lk: Seq<MorphemeV>, token: Seq<char>) -> Option<Seq<char>>
    decreases lk.len(),
{
    if lk.len() == 0 {
        None
    } else if lk[0].token == token {
        Some(lk[0].tag)
    } else {
        lookup_tag(lk.drop_first(), token)
    }
}

/// One `token/tag` entry parsed against an optional lookup table: a missing
/// or `*` tag is resolved by the table; with no table it is an error.
pub open spec fn spec_parse_morpheme(part: Seq<char>, lookup: Option<Seq<MorphemeV>>) -> Option<
    MorphemeV,
> {
    let pieces = split_by(part, '/');
    let token = pieces[0];
    if pieces.len() == 1 || is_star(pieces[1]) {
        match lookup {
            Some(lk) => match lookup_tag(lk, token) {
                Some(tag) => Some(MorphemeV { token, tag }),
                None => None,
            },
            None => {
                if pieces.len() == 1 {
                    None
                } else {
                    Some(MorphemeV { token, tag: pieces[1] })
                }
            },
        }
    } else {
        Some(MorphemeV { token, tag: pieces[1] })
    }
}

/// A `+`-separated morpheme list parsed from field `i` on.
pub open spec fn spec_parse_parts(
    parts: Seq<Seq<char>>,
    lookup: Option<Seq<MorphemeV>>,
    i: int,
) -> Option<Seq<MorphemeV>>
    decreases parts.len() - i,
{
    if i < 0 || i >= parts.len() {
        Some(Seq::empty())
    } else {
        match spec_parse_morpheme(parts[i], lookup) {
            Some(m) => match spec_parse_parts(parts, lookup, i + 1) {
                Some(rest) => Some(seq![m] + rest),
                None => None,
            },
            None => None,
        }
    }
}

/// A whole morpheme field: `*` means no morphemes; otherwise every
/// `+`-separated entry must parse.
pub open spec fn spec_parse_morphemes(s: Seq<char>, lookup: Option<Seq<MorphemeV>>) -> Option<
    Option<Seq<MorphemeV>>,
> {
    if is_star(s) {
        Some(None)
    } else {
        match spec_parse_parts(split_by(s, '+'), lookup, 0) {
            Some(ms) => Some(Some(ms)),
            None => None,
        }
    }
}

fn lookup_in(lk: &Vec<Morpheme>, token: &String) -> (r: Option<String>)
    ensures
        match r {
            Some(tag) => lookup_tag(str_morph_views(lk@), token@) == Some(tag@),
            None => lookup_tag(str_morph_views(lk@), token@) is None,
        },
{
    let n = lk.len();
    proof {
        assert(str_morph_views(lk@).subrange(0, n as int) =~= str_morph_views(lk@));
    }
    let mut i: usize = 0;
    while i < n
        invariant
            i <= n,
            n == lk@.len(),
            lookup_tag(str_morph_views(lk@).subrange(i as int, n as int), token@) == lookup_tag(
                str_morph_views(lk@),
                token@,
            ),
            forall|t: int| 0 <= t < i ==> (#[trigger] lk@[t])@.token != token@,
        decreases n - i,
    {
        proof {
            assert(str_morph_views(lk@).subrange(i as int, n as int)[0] == lk@[i as int]@);
            assert(str_morph_views(lk@).subrange(i as int, n as int).drop_first()
                =~= str_morph_views(lk@).subrange(i + 1, n as int));
        }
        if lk[i].token.eq(token) {
            return Some(lk[i].tag.clone());
        }
        i = i + 1;
    }
    proof {
        assert(str_morph_views(lk@).subrange(n as int, n as int) =~= Seq::<MorphemeV>::empty());
    }
    None
}

/// The views of a sequence of morphemes.
pub open spec fn str_morph_views(s: Seq<Morpheme>) -> Seq<MorphemeV> {
    s.map_values(|m: Morpheme| m@)
}

fn parse_one_morpheme(part: &String, lookup: &Option<Vec<Morpheme>>) -> (r: Result<
    Morpheme,
    ParseError,
>)
    ensures
        match r {
            Ok(m) => spec_parse_morpheme(part@, lookup_views(lookup)) == Some(m@),
            Err(_) => spec_parse_morpheme(part@, lookup_views(lookup)) is None,
        },
{
    let pieces = split_string(part.as_str(), '/');
    let ghost pv = split_by(part@, '/');
    proof {
        assert(str_views(pieces@)[0] == pieces@[0]@);
        if pieces@.len() >= 2 {
            assert(str_views(pieces@)[1] == pieces@[1]@);
        }
    }
    let token = pieces[0].clone();
    if pieces.len() == 1 || star(&pieces[1]) {
        match lookup {
            Some(lk) => match lookup_in(lk, &token) {
                Some(tag) => Ok(Morpheme { token, tag }),
                None => Err(ParseError::Malformed),
            },
            None => {
                if pieces.len() == 1 {
                    Err(ParseError::Malformed)
                } else {
                    let tag = pieces[1].clone();
                    Ok(Morpheme { token, tag })
                }
            },
        }
    } else {
        let tag = pieces[1].clone();
        Ok(Morpheme { token, tag })
    }
}

/// The views behind an optional lookup table.
pub open spec fn lookup_views(lk: &Option<Vec<Morpheme>>) -> Option<Seq<MorphemeV>> {
    match lk {
        Some(v) => Some(str_morph_views(v@)),
        None => None,
    }
}

impl Analytics {
    /// Parses one morpheme feature field, as `spec_parse_morphemes` says:
    /// `*` is no morpheme list, and otherwise every `+`-separated entry must
    /// yield a token and a tag, with `tag_lookup` resolving entries whose
    /// own tag is absent or `*`.
    pub fn parse_morphemes(s: &str, tag_lookup: Option<Vec<Morpheme>>) -> (r: Result<
        Option<Vec<Morpheme>>,
        ParseError,
    >)
        ensures
            match r {
                Ok(Some(ms)) => spec_parse_morphemes(s@, lookup_views(&tag_lookup)) == Some(
                    Some(str_morph_views(ms@)),
                ),
                Ok(None) => spec_parse_morphemes(s@, lookup_views(&tag_lookup)) == Some(
                    None::<Seq<MorphemeV>>,
                ),
                Err(_) => spec_parse_morphemes(s@, lookup_views(&tag_lookup)) is None,
            },
    {
        let owned_s = owned(s);
        if star(&owned_s) {
            return Ok(None);
        }
        let parts = split_string(s, '+');
        let ghost pv = split_by(s@, '+');
        let n = parts.len();
        let mut ms: Vec<Morpheme> = Vec::new();
        let mut i: usize = 0;
        while i < n
            invariant
                i <= n,
                n == parts@.len(),
                str_views(parts@) == pv,
                pv == split_by(s@, '+'),
                !is_star(s@),
                spec_parse_parts(pv, lookup_views(&tag_lookup), 0) == (match spec_parse_parts(
                    pv,
                    lookup_views(&tag_lookup),
                    i as int,
                ) {
                    Some(rest) => Some(str_morph_views(ms@) + rest),
                    None => None::<Seq<MorphemeV>>,
                }),
            decreases n - i,
        {
            proof {
                assert(str_views(parts@)[i as int] == parts@[i as int]@);
            }
            let ghost pre = ms@;
            let ghost lv = lookup_views(&tag_lookup);
            match parse_one_morpheme(&parts[i], &tag_lookup) {
                Ok(m) => {
                    ms.push(m);
                    proof {
                        assert(str_morph_views(ms@) =~= str_morph_views(pre).push(ms@.last()@));
                        assert(spec_parse_morpheme(pv[i as int], lv) == Some(ms@.last()@));
                        if spec_parse_parts(pv, lv, i + 1) is Some {
                            let rest = spec_parse_parts(pv, lv, i + 1)->Some_0;
                            assert(str_morph_views(pre) + (seq![ms@.last()@] + rest)
                                =~= str_morph_views(ms@) + rest);
                        }
                    }
                },
                Err(e) => {
                    proof {
                        assert(spec_parse_parts(pv, lv, i as int) is None);
                        assert(spec_parse_parts(pv, lv, 0) is None);
                    }
                    return Err(e);
                },
            }
            i = i + 1;
        }
        proof {
            assert(spec_parse_parts(pv, lookup_views(&tag_lookup), n as int) == Some(
                Seq::<MorphemeV>::empty(),
            ));
            assert(str_morph_views(ms@) + Seq::<MorphemeV>::empty() =~= str_morph_views(ms@));
        }
        Ok(Some(ms))
    }
}

/// One analyzed token of tagger output with all its feature fields.
#[derive(Debug)]
pub struct Analytics {
    pub token: String,
    pub tags: Vec<String>,
    pub symantic_group: Option<String>,
    pub has_support: Option<bool>,
    pub pronounce: Option<String>,
    pub kind: Option<String>,
    pub left_tag: Option<String>,
    pub right_tag: Option<String>,
    pub morphemes: Option<Vec<Morpheme>>,
}

/// The mathematical content of an `Analytics`.
pub ghost struct AnalyticsV {
    pub token: Seq<char>,
    pub tags: Seq<Seq<char>>,
    pub symantic_group: Option<Seq<char>>,
    pub has_support: Option<bool>,
    pub pronounce: Option<Seq<char>>,
    pub kind: Option<Seq<char>>,
    pub left_tag: Option<Seq<char>>,
    pub right_tag: Option<Seq<char>>,
    pub morphemes: Option<Seq<MorphemeV>>,
}

/// The view of an optional string.
pub open spec fn opt_view(o: &Option<String>) -> Option<Seq<char>> {
    match o {
        Some(v) => Some(v@),
        None => None,
    }
}

impl View for Analytics {
    type V = AnalyticsV;

    open spec fn view(&self) -> AnalyticsV {
        AnalyticsV {
            token: self.token@,
            tags: str_views(self.tags@),
            symantic_group: opt_view(&self.symantic_group),
            has_support: self.has_support,
            pronounce: opt_view(&self.pronounce),
            kind: opt_view(&self.kind),
            left_tag: opt_view(&self.left_tag),
            right_tag: opt_view(&self.right_tag),
            morphemes: match &self.morphemes {
                Some(ms) => Some(str_morph_views(ms@)),
                None => None,
            },
        }
    }
}

/// The `T`/`F` final-consonant feature field.
pub open spec fn spec_support_flag(f: Seq<char>) -> Option<bool> {
    if f =~= seq!['T'] {
        Some(true)
    } else if f =~= seq!['F'] {
        Some(false)
    } else {
        None
    }
}

/// What one tagger output line means: the token before the tab; after it,
/// comma-separated, the `+`-separated tag list, the semantic group, the
/// final-consonant flag, the pronunciation, the kind, the left and right
/// tags, and the morpheme list (resolved against the detail field when a
/// ninth field is present). A line without a tab or with fewer than eight
/// feature fields, or whose morpheme field does not parse, means nothing.
pub open spec fn spec_parse_analytics(s: Seq<char>) -> Option<AnalyticsV> {
    let top = split_by(s, '\t');
    if top.len() < 2 {
        None
    } else {
        let fields = split_by(top[1], ',');
        if fields.len() < 8 {
            None
        } else {
            let morphemes = if fields.len() >= 9 {
                match spec_parse_morphemes(fields[8], None) {
                    Some(lk) => spec_parse_morphemes(fields[7], lk),
                    None => None,
                }
            } else {
                spec_parse_morphemes(fields[7], None)
            };
            match morphemes {
                None => None,
                Some(ms) => Some(
                    AnalyticsV {
                        token: top[0],
                        tags: split_by(fields[0], '+'),
                        symantic_group: spec_asterisk_as_none(fields[1]),
                        has_support: spec_support_flag(fields[2]),
                        pronounce: spec_asterisk_as_none(fields[3]),
                        kind: spec_asterisk_as_none(fields[4]),
                        left_tag: spec_asterisk_as_none(fields[5]),
                        right_tag: spec_asterisk_as_none(fields[6]),
                        morphemes: ms,
                    },
                ),
            }
        }
    }
}

fn support_flag(f: &String) -> (r: Option<bool>)
    ensures
        r == spec_support_flag(f@),
{
    let st = f.as_str();
    if st.unicode_len() == 1 {
        let c = st.get_char(0);
        if c == 'T' {
            proof {
                assert(f@ =~= seq!['T']);
            }
            Some(true)
        } else if c == 'F' {
            proof {
                assert(f@ =~= seq!['F']);
            }
            Some(false)
        } else {
            proof {
                assert(!(f@ =~= seq!['T']) && !(f@ =~= seq!['F']));
            }
            None
        }
    } else {
        None
    }
}

impl Analytics {
    /// Parses one line of tagger output, as `spec_parse_analytics` says.
    pub fn parse(s: &str) -> (r: Result<Analytics, ParseError>)
        ensures
            match r {
                Ok(a) => spec_parse_analytics(s@) == Some(a@),
                Err(_) => spec_parse_analytics(s@) is None,
            },
    {
        let top = split_string(s, '\t');
        if top.len() < 2 {
            return Err(ParseError::Malformed);
        }
        proof {
            assert(str_views(top@)[0] == top@[0]@);
            assert(str_views(top@)[1] == top@[1]@);
        }
        let token = top[0].clone();
        let fields = split_string(top[1].as_str(), ',');
        if fields.len() < 8 {
            return Err(ParseError::Malformed);
        }
        proof {
            assert(str_views(fields@)[0] == fields@[0]@);
            assert(str_views(fields@)[1] == fields@[1]@);
            assert(str_views(fields@)[2] == fields@[2]@);
            assert(str_views(fields@)[3] == fields@[3]@);
            assert(str_views(fields@)[4] == fields@[4]@);
            assert(str_views(fields@)[5] == fields@[5]@);
            assert(str_views(fields@)[6] == fields@[6]@);
            assert(str_views(fields@)[7] == fields@[7]@);
            if fields@.len() >= 9 {
                assert(str_views(fields@)[8] == fields@[8]@);
            }
        }
        let morphemes = if fields.len() >= 9 {
            let lk = match Analytics::parse_morphemes(fields[8].as_str(), None) {
                Ok(lk) => lk,
                Err(e) => {
                    return Err(e);
                },
            };
            match Analytics::parse_morphemes(fields[7].as_str(), lk) {
                Ok(ms) => ms,
                Err(e) => {
                    return Err(e);
                },
            }
        } else {
            match Analytics::parse_morphemes(fields[7].as_str(), None) {
                Ok(ms) => ms,
                Err(e) => {
                    return Err(e);
                },
            }
        };
        let tags = split_string(fields[0].as_str(), '+');
        let symantic_group = asterisk_as_none(fields[1].clone());
        let has_support = support_flag(&fields[2]);
        let pronounce = asterisk_as_none(fields[3].clone());
        let kind = asterisk_as_none(fields[4].clone());
        let left_tag = asterisk_as_none(fields[5].clone());
        let right_tag = asterisk_as_none(fields[6].clone());
        Ok(
            Analytics {
                token,
                tags,
                symantic_group,
                has_support,
                pronounce,
                kind,
                left_tag,
                right_tag,
                morphemes,
            },
        )
    }
}

/// The user-dictionary row behind one accepted noun: the noun, the fixed
/// `NNP` feature columns, its final-consonant flag, and the noun again as
/// its own pronunciation.
pub open spec fn spec_nnp_row(nnp: Seq<char>) -> Seq<char> {
    nnp + ",,,,NNP,*,"@ + (if spec_has_support(nnp.last()) {
        "T"@
    } else {
        "F"@
    }) + ","@ + nnp + ",*,*,*,*"@
}

/// Formats one accepted noun as a user-dictionary row, as `spec_nnp_row`
/// says; an empty noun is rejected.
pub fn mecab_csv_nnp_format(nnp: &str) -> (r: Result<String, ParseError>)
    ensures
        match r {
            Ok(row) => nnp@.len() > 0 && row@ == spec_nnp_row(nnp@),
            Err(_) => nnp@.len() == 0,
        },
{
    let n = nnp.unicode_len();
    if n == 0 {
        return Err(ParseError::EmptyNoun);
    }
    let last = nnp.get_char(n - 1);
    let mut row = owned(nnp);
    row.append(",,,,NNP,*,");
    if has_support(last) {
        row.append("T");
    } else {
        row.append("F");
    }
    row.append(",");
    row.append(nnp);
    row.append(",*,*,*,*");
    Ok(row)
}

} // verus!
