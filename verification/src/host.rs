//! The hosts of URLs, as far as it takes to see that `url` can parse a text.
//!
//! The labels of a host are encoded as ASCII. That takes numbers that grow with the length of a
//! label and with its characters, and they must fit in 32 bits.
use vstd::prelude::*;
use vstd::string::*;

use crate::search::{first_where, lemma_first_where};

verus! {

/// How many characters a text may have. The parser counts some of them in 31 bits.
pub const TEXT_LIMIT: usize = 0x7fff_ffff;

/// How many characters may stand for a label whose characters are low or plain, but not all plain:
/// the number of them, plus one, is multiplied by numbers below U+F900.
pub const LOW_LIMIT: u128 = 67_376;

/// How many characters may stand for any other label whose characters are not all plain: the number
/// of them, plus one, is multiplied by numbers below U+110000.
pub const HIGH_LIMIT: u128 = 3_853;

/// A character stands for itself wherever it occurs in a URL.
pub open spec fn plain(c: char) -> bool {
    (c as u32) < 128 && c != '%'
}

/// A character is not plain, but what stands for it in a host are characters below U+F900.
pub open spec fn low(c: char) -> bool {
    128 <= (c as u32) < 0xf900
}

/// How many characters stand for a character in a host at most. Some ligatures and signs stand for
/// whole words. What is escaped counts by its percent signs, of which there is one for every byte.
pub open spec fn weight(c: char) -> nat {
    let code = c as u32;
    if plain(c) {
        1
    } else if code < 128 {
        6
    } else if code < 0x1e00 {
        3
    } else if code < 0x3000 {
        4
    } else if code < 0x3400 {
        6
    } else if code < 0xfb00 {
        1
    } else if code < 0xfe00 {
        18
    } else if code < 0x20000 {
        3
    } else {
        1
    }
}

/// How high the characters are that stand for a character.
pub open spec fn rank(c: char) -> nat {
    if plain(c) {
        0
    } else if low(c) {
        1
    } else {
        2
    }
}

/// Tabs and line breaks are ignored wherever they stand in a URL.
pub open spec fn ignored(c: char) -> bool {
    c == '\t' || c == '\n' || c == '\r'
}

/// The characters of a text that are not ignored.
pub open spec fn kept(text: Seq<char>) -> Seq<char> {
    text.filter(|c: char| !ignored(c))
}

/// A character of a scheme, which may be written with capital letters.
pub open spec fn lowered(c: char) -> char {
    if 'A' <= c && c <= 'Z' {
        (c as u32 + 32) as char
    } else {
        c
    }
}

/// The first `n` characters of a text, but for blanks, as a scheme.
pub open spec fn scheme(text: Seq<char>, n: int) -> Seq<char> {
    text.take(n).filter(|c: char| c > ' ').map_values(|c: char| lowered(c))
}

/// The URLs with a scheme have a host that is encoded, however many slashes stand before it.
pub open spec fn has_host(scheme: Seq<char>) -> bool {
    ||| scheme == "http"@
    ||| scheme == "https"@
    ||| scheme == "ws"@
    ||| scheme == "wss"@
    ||| scheme == "ftp"@
}

pub open spec fn slash(c: char) -> bool {
    c == '/' || c == '\\'
}

/// A character ends the part of a URL that its host is in.
pub open spec fn ends_authority(c: char) -> bool {
    slash(c) || c == '?' || c == '#'
}

/// The position behind the slashes that stand at a position.
pub open spec fn behind_slashes(text: Seq<char>, start: int) -> int
    decreases text.len() - start,
{
    if 0 <= start < text.len() && slash(text[start]) {
        behind_slashes(text, start + 1)
    } else {
        start
    }
}

/// Where the part of a URL that starts at a position ends.
pub open spec fn authority_end(text: Seq<char>, start: int) -> int
    decreases text.len() - start,
{
    if 0 <= start < text.len() && !ends_authority(text[start]) {
        authority_end(text, start + 1)
    } else {
        start
    }
}

/// The position behind the last `@` between two positions, or the first of them.
pub open spec fn behind_user(text: Seq<char>, start: int, end: int) -> int
    decreases end - start,
{
    if end <= start || text[end - 1] == '@' {
        end
    } else {
        behind_user(text, start, end - 1)
    }
}

/// Where the host is in a text without ignored characters, if there is one that is encoded.
pub open spec fn host_of(text: Seq<char>) -> Option<(int, int)> {
    match first_where(text.len(), |i: int| text[i] == ':') {
        None => None,
        Some(colon) => {
            let scheme = scheme(text, colon);
            if has_host(scheme) {
                let start = behind_slashes(text, colon + 1);
                let end = authority_end(text, start);
                Some((behind_user(text, start, end), end))
            } else if scheme == "file"@ && colon + 2 < text.len() && slash(text[colon + 1]) && slash(
                text[colon + 2],
            ) {
                Some((colon + 3, authority_end(text, colon + 3)))
            } else {
                None
            }
        },
    }
}

/// How much the characters weigh between the last dot before position `n` and that position, and
/// the highest rank of them.
pub open spec fn label_before(text: Seq<char>, start: int, n: int) -> (nat, nat)
    decreases n - start,
{
    if n <= start || text[n - 1] == '.' {
        (0, 0)
    } else {
        let (sum, top) = label_before(text, start, n - 1);
        (
            sum + weight(text[n - 1]),
            if rank(text[n - 1]) > top {
                rank(text[n - 1])
            } else {
                top
            },
        )
    }
}

/// A label of a host is not too long to be encoded.
pub open spec fn label_fits(sum: nat, top: nat) -> bool {
    top == 0 || sum <= HIGH_LIMIT || top == 1 && sum <= LOW_LIMIT
}

/// No label between two positions is too long to be encoded.
pub open spec fn labels_fit(text: Seq<char>, start: int, end: int) -> bool {
    forall|n: int|
        start <= n <= end ==> {
            let (sum, top) = #[trigger] label_before(text, start, n);
            label_fits(sum, top)
        }
}

/// A text can be parsed as a URL, whether or not it is one.
pub open spec fn can_parse(text: Seq<char>) -> bool {
    text.len() <= TEXT_LIMIT && (host_of(kept(text)) matches Some((start, end)) ==> labels_fit(
        kept(text),
        start,
        end,
    ))
}

/// Drops what is ignored.
fn keep(text: &str) -> (chars: Vec<char>)
    ensures
        chars@ == kept(text@),
{
    let mut chars: Vec<char> = Vec::new();
    let ghost all = text@;
    proof {
        reveal(Seq::filter);
        assert(all.take(0) =~= Seq::empty());
    }
    for c in it: text.chars()
        invariant
            it.seq() == all,
            chars@ == kept(all.take(it.index())),
    {
        proof {
            reveal(Seq::filter);
            let n = it.index();
            assert(all.take(n + 1).drop_last() =~= all.take(n));
            assert(all.take(n + 1).last() == c);
        }
        if c != '\t' && c != '\n' && c != '\r' {
            chars.push(c);
        }
    }
    assert(all.take(all.len() as int) =~= all);
    chars
}

/// Reads a scheme.
fn read_scheme(text: &Vec<char>, n: usize) -> (word: Vec<char>)
    requires
        n <= text@.len(),
    ensures
        word@ == scheme(text@, n as int),
{
    let mut word: Vec<char> = Vec::new();
    proof {
        reveal(Seq::filter);
        assert(text@.take(0) =~= Seq::empty());
        assert(word@ =~= scheme(text@, 0));
    }
    for i in 0..n
        invariant
            n <= text@.len(),
            word@ == scheme(text@, i as int),
    {
        let c: char = text[i];
        let ghost before = text@.take(i as int).filter(|c: char| c > ' ');
        proof {
            reveal(Seq::filter);
            assert(text@.take(i + 1).drop_last() =~= text@.take(i as int));
            assert(text@.take(i + 1).last() == c);
        }
        if c > ' ' {
            let low: char = if 'A' <= c && c <= 'Z' {
                ((c as u8) + 32) as char
            } else {
                c
            };
            assert(low == lowered(c));
            word.push(low);
            assert(word@ =~= before.push(c).map_values(|c: char| lowered(c)));
        }
    }
    word
}

/// Whether a text is a word.
fn spells(text: &Vec<char>, word: &str) -> (same: bool)
    ensures
        same == (text@ == word@),
{
    let n: usize = word.unicode_len();
    if text.len() != n {
        return false;
    }
    for i in 0..n
        invariant
            n == text@.len(),
            n == word@.len(),
            forall|j: int| 0 <= j < i ==> text@[j] == word@[j],
    {
        if text[i] != word.get_char(i) {
            return false;
        }
    }
    assert(text@ =~= word@);
    true
}

/// Finds the end of the part of a URL that its host is in.
fn find_end(text: &Vec<char>, start: usize) -> (end: usize)
    requires
        start <= text@.len(),
    ensures
        end == authority_end(text@, start as int),
        start <= end <= text@.len(),
{
    let mut end: usize = start;
    while end < text.len() && text[end] != '/' && text[end] != '\\' && text[end] != '?' && text[end]
        != '#'
        invariant
            start <= end <= text@.len(),
            authority_end(text@, start as int) == authority_end(text@, end as int),
        decreases text@.len() - end,
    {
        end = end + 1;
    }
    end
}

/// Finds the host in a text without ignored characters.
fn find_host(text: &Vec<char>) -> (host: Option<(usize, usize)>)
    ensures
        match (host, host_of(text@)) {
            (Some((start, end)), Some(expected)) => {
                &&& (start as int, end as int) == expected
                &&& start <= end <= text@.len()
            },
            (None, None) => true,
            _ => false,
        },
{
    let n: usize = text.len();
    let ghost is_colon = |i: int| text@[i] == ':';
    let mut colon: usize = 0;
    while colon < n && text[colon] != ':'
        invariant
            n == text@.len(),
            colon <= n,
            is_colon == (|i: int| text@[i] == ':'),
            forall|j: int| 0 <= j < colon ==> !#[trigger] is_colon(j),
        decreases n - colon,
    {
        colon = colon + 1;
    }
    proof {
        lemma_first_where(n as nat, is_colon);
    }
    if colon == n {
        return None;
    }
    assert(is_colon(colon as int));
    let word = read_scheme(text, colon);
    if spells(&word, "http") || spells(&word, "https") || spells(&word, "ws") || spells(
        &word,
        "wss",
    ) || spells(&word, "ftp") {
        let mut first: usize = colon + 1;
        while first < n && (text[first] == '/' || text[first] == '\\')
            invariant
                n == text@.len(),
                first <= n,
                behind_slashes(text@, colon + 1) == behind_slashes(text@, first as int),
            decreases n - first,
        {
            first = first + 1;
        }
        let end = find_end(text, first);
        let mut start: usize = end;
        while start > first && text[start - 1] != '@'
            invariant
                first <= start <= end <= n,
                n == text@.len(),
                behind_user(text@, first as int, end as int) == behind_user(
                    text@,
                    first as int,
                    start as int,
                ),
            decreases start,
        {
            start = start - 1;
        }
        Some((start, end))
    } else if spells(&word, "file") && n - colon > 2 && (text[colon + 1] == '/' || text[colon + 1]
        == '\\') && (text[colon + 2] == '/' || text[colon + 2] == '\\') {
        Some((colon + 3, find_end(text, colon + 3)))
    } else {
        None
    }
}

/// How much a character weighs.
fn weigh(c: char) -> (n: u128)
    ensures
        n == weight(c),
        n <= 18,
{
    let code: u32 = c as u32;
    if code < 128 {
        if c == '%' {
            6
        } else {
            1
        }
    } else if code < 0x1e00 {
        3
    } else if code < 0x3000 {
        4
    } else if code < 0x3400 {
        6
    } else if code < 0xfb00 {
        1
    } else if code < 0xfe00 {
        18
    } else if code < 0x20000 {
        3
    } else {
        1
    }
}

/// Whether the labels between two positions can be encoded.
fn check_labels(text: &Vec<char>, start: usize, end: usize) -> (fit: bool)
    requires
        start <= end <= text@.len(),
    ensures
        fit == labels_fit(text@, start as int, end as int),
{
    let mut sum: u128 = 0;
    let mut top: usize = 0;
    for i in start..end
        invariant
            start <= end <= text@.len(),
            sum <= 18 * (i - start),
            (sum as nat, top as nat) == label_before(text@, start as int, i as int),
            forall|n: int|
                start <= n <= i ==> {
                    let (sum, top) = #[trigger] label_before(text@, start as int, n);
                    label_fits(sum, top)
                },
    {
        let c: char = text[i];
        if c == '.' {
            sum = 0;
            top = 0;
        } else {
            let code: u32 = c as u32;
            let rank: usize = if code < 128 && c != '%' {
                0
            } else if 128 <= code && code < 0xf900 {
                1
            } else {
                2
            };
            sum = sum + weigh(c);
            if rank > top {
                top = rank;
            }
        }
        assert((sum as nat, top as nat) == label_before(text@, start as int, i + 1));
        if !(top == 0 || sum <= HIGH_LIMIT || top == 1 && sum <= LOW_LIMIT) {
            return false;
        }
    }
    true
}

/// Whether a text can be parsed.
pub fn parses(text: &str) -> (safe: bool)
    ensures
        safe == can_parse(text@),
{
    if text.unicode_len() > TEXT_LIMIT {
        return false;
    }
    let chars = keep(text);
    match find_host(&chars) {
        None => true,
        Some((start, end)) => check_labels(&chars, start, end),
    }
}

/// What is left of a text are characters of it, and no more than it has.
proof fn lemma_kept(text: Seq<char>)
    ensures
        kept(text).len() <= text.len(),
        forall|i: int| 0 <= i < kept(text).len() ==> text.contains(#[trigger] kept(text)[i]),
{
    let keep = |c: char| !ignored(c);
    text.lemma_filter_len(keep);
    assert forall|i: int| 0 <= i < kept(text).len() implies text.contains(
        #[trigger] kept(text)[i],
    ) by {
        text.lemma_filter_contains_rev(keep, kept(text)[i]);
    }
}

/// The end of a host is no further away than the end of the text.
proof fn lemma_authority_end(text: Seq<char>, start: int)
    requires
        0 <= start <= text.len(),
    ensures
        start <= authority_end(text, start) <= text.len(),
    decreases text.len() - start,
{
    if start < text.len() && !ends_authority(text[start]) {
        lemma_authority_end(text, start + 1);
    }
}

proof fn lemma_behind_slashes(text: Seq<char>, start: int)
    requires
        0 <= start <= text.len(),
    ensures
        start <= behind_slashes(text, start) <= text.len(),
    decreases text.len() - start,
{
    if start < text.len() && slash(text[start]) {
        lemma_behind_slashes(text, start + 1);
    }
}

proof fn lemma_behind_user(text: Seq<char>, start: int, end: int)
    requires
        start <= end,
    ensures
        start <= behind_user(text, start, end) <= end,
    decreases end - start,
{
    if start < end && text[end - 1] != '@' {
        lemma_behind_user(text, start, end - 1);
    }
}

proof fn lemma_host_of(text: Seq<char>)
    ensures
        host_of(text) matches Some((start, end)) ==> 0 <= start <= end <= text.len(),
{
    lemma_first_where(text.len(), |i: int| text[i] == ':');
    if let Some(colon) = first_where(text.len(), |i: int| text[i] == ':') {
        lemma_behind_slashes(text, colon + 1);
        let start = behind_slashes(text, colon + 1);
        lemma_authority_end(text, start);
        lemma_behind_user(text, start, authority_end(text, start));
        if colon + 2 < text.len() {
            lemma_authority_end(text, colon + 3);
        }
    }
}

/// What the characters of a label weigh.
proof fn lemma_label_before(text: Seq<char>, start: int, n: int)
    requires
        0 <= start <= n <= text.len(),
    ensures
        label_before(text, start, n).0 <= 18 * (n - start),
        (forall|i: int| 0 <= i < text.len() ==> plain(#[trigger] text[i])) ==> label_before(
            text,
            start,
            n,
        ).1 == 0,
    decreases n - start,
{
    if n > start {
        lemma_label_before(text, start, n - 1);
        assert(text[n - 1] == text[n - 1]);
    }
}

/// A text can be parsed if it is short, or if it is made of ASCII characters but percent signs and
/// is no longer than the parser can count. One that is longer cannot.
pub proof fn short_and_plain_texts_can_be_parsed(text: Seq<char>)
    ensures
        text.len() <= 200 ==> can_parse(text),
        text.len() <= 0x7fff_ffff && (forall|i: int|
            0 <= i < text.len() ==> ((#[trigger] text[i]) as u32) < 128 && text[i] != '%')
            ==> can_parse(text),
        text.len() > 0x7fff_ffff ==> !can_parse(text),
{
    let chars = kept(text);
    lemma_kept(text);
    lemma_host_of(chars);
    if let Some((start, end)) = host_of(chars) {
        assert forall|n: int| start <= n <= end implies {
            let (sum, top) = #[trigger] label_before(chars, start, n);
            &&& sum <= 18 * chars.len()
            &&& (forall|i: int| 0 <= i < chars.len() ==> plain(#[trigger] chars[i])) ==> top == 0
        } by {
            lemma_label_before(chars, start, n);
        }
        if forall|i: int|
            0 <= i < text.len() ==> ((#[trigger] text[i]) as u32) < 128 && text[i] != '%' {
            assert forall|i: int| 0 <= i < chars.len() implies plain(#[trigger] chars[i]) by {
                let k = choose|k: int| 0 <= k < text.len() && text[k] == chars[i];
                assert((text[k] as u32) < 128 && text[k] != '%');
            }
        }
    }
}

} // verus!
