//! Pin constraints: which physical pin each named signal is bound to.
//!
//! A constraint file holds one declaration per line, `set_io <name> <pin>`.
//! The lines are found with a regular expression; what is made of them is
//! decided here.

use crate::seq_util::{first_index, is_first, lemma_first_index_is};
use crate::text::{chars_of, indexed_name, spec_indexed_name, str_eq};
use vstd::prelude::*;

verus! {

/// What the `regex` crate finds for `pattern` in `haystack`: `None` where
/// the pattern does not compile; else, for every match in turn, the text of
/// each capture group, the whole match first, with `None` for a group that
/// took no part in the match.
pub uninterp spec fn regex_captures(pattern: Seq<char>, haystack: Seq<char>) -> Option<
    Seq<Seq<Option<Seq<char>>>>,
>;

/// Compiles `pattern` with `Regex::new` and walks `haystack` with
/// `Regex::captures_iter`, copying out the text of every group of every
/// match. Nothing is claimed about what matches: the result is known only
/// by its name.
#[verifier::external_body]
fn captures_of(pattern: &str, haystack: &str) -> (r: Option<Vec<Vec<Option<String>>>>)
    ensures
        r.deep_view() == regex_captures(pattern@, haystack@),
{
    match regex::Regex::new(pattern) {
        Ok(re) => Some(
            re.captures_iter(haystack).map(
                |c| c.iter().map(|g| g.map(|m| m.as_str().to_owned())).collect(),
            ).collect(),
        ),
        Err(_) => None,
    }
}

/// The pattern of a declaration: a line that reads `set_io`, a name without
/// white space, and the digits of a pin, with single spaces between them.
pub const SET_IO_PATTERN: &'static str = "(?m)^set_io (\\S+) (\\d+)$";

/// Whether `c` is one of the digits `0` to `9`.
pub open spec fn is_digit(c: char) -> bool {
    '0' <= c <= '9'
}

/// The number that a sequence of digits denotes in base ten.
pub open spec fn digits_value(s: Seq<char>) -> nat
    decreases s.len(),
{
    if s.len() == 0 {
        0
    } else {
        digits_value(s.drop_last()) * 10 + (s.last() as nat - '0' as nat) as nat
    }
}

/// The pin that `s` names: `s` is one or more digits `0` to `9` and their
/// value fits in 32 bits.
pub open spec fn spec_parse_pin(s: Seq<char>) -> Option<u32> {
    if s.len() > 0 && (forall|i: int| 0 <= i < s.len() ==> is_digit(#[trigger] s[i]))
        && digits_value(s) <= u32::MAX {
        Some(digits_value(s) as u32)
    } else {
        None
    }
}

/// Reads a pin number written in decimal digits.
pub fn parse_pin(s: &str) -> (r: Option<u32>)
    ensures
        r == spec_parse_pin(s@),
{
    let chars = chars_of(s);
    let n = chars.len();
    if n == 0 {
        return None;
    }
    let mut acc: u64 = 0;
    let mut overflow = false;
    let mut i: usize = 0;
    while i < n
        invariant
            chars@ == s@,
            n == s@.len(),
            i <= n,
            forall|j: int| 0 <= j < i ==> is_digit(#[trigger] s@[j]),
            !overflow ==> acc == digits_value(s@.take(i as int)) && acc <= u32::MAX,
            overflow ==> digits_value(s@.take(i as int)) > u32::MAX,
        decreases n - i,
    {
        let c = chars[i];
        if !('0' <= c && c <= '9') {
            return None;
        }
        proof {
            assert(s@.take(i as int + 1).drop_last() =~= s@.take(i as int));
            assert(s@.take(i as int + 1).last() == c);
        }
        if !overflow {
            let d: u64 = (c as u32 - '0' as u32) as u64;
            acc = acc * 10 + d;
            if acc > u32::MAX as u64 {
                overflow = true;
            }
        }
        i += 1;
    }
    proof {
        assert(s@.take(n as int) =~= s@);
    }
    if overflow {
        None
    } else {
        Some(acc as u32)
    }
}

/// The match is a declaration: it has exactly the two groups of the
/// pattern, both took part, and the second can be read as a pin.
pub open spec fn is_declaration(m: Seq<Option<Seq<char>>>) -> bool {
    m.len() == 3 && m[1] is Some && m[2] is Some && spec_parse_pin(m[2]->0) is Some
}

/// The name that a declaration binds: the text of its first group.
pub open spec fn declared_name(m: Seq<Option<Seq<char>>>) -> Seq<char> {
    m[1]->0
}

/// The pin that a declaration binds its name to: the number in its second
/// group.
pub open spec fn declared_pin(m: Seq<Option<Seq<char>>>) -> u32 {
    spec_parse_pin(m[2]->0)->0
}

/// The names and pins of a sequence of declarations, in order.
pub open spec fn declarations(ms: Seq<Seq<Option<Seq<char>>>>) -> Seq<(Seq<char>, u32)> {
    ms.map_values(|m: Seq<Option<Seq<char>>>| (declared_name(m), declared_pin(m)))
}

/// Every match is a declaration, and no name is declared twice.
pub open spec fn declarations_valid(ms: Seq<Seq<Option<Seq<char>>>>) -> bool {
    &&& forall|i: int| 0 <= i < ms.len() ==> is_declaration(#[trigger] ms[i])
    &&& forall|i: int, j: int|
        0 <= i < j < ms.len() ==> declared_name(#[trigger] ms[i]) != declared_name(#[trigger] ms[j])
}

/// The text is a valid constraint file: the pattern compiles, every line
/// that it finds is a declaration with a pin that can be read, and no name
/// is declared twice.
pub open spec fn constraints_valid(input: Seq<char>) -> bool {
    regex_captures(SET_IO_PATTERN@, input) matches Some(ms) && declarations_valid(ms)
}

/// The map from names to pins that a list of pairs stands for. Of two pairs
/// with one name the first counts.
pub open spec fn pairs_map(pairs: Seq<(Seq<char>, u32)>) -> Map<Seq<char>, u32> {
    Map::new(
        |name: Seq<char>| exists|i: int| 0 <= i < pairs.len() && (#[trigger] pairs[i]).0 == name,
        |name: Seq<char>| pairs[first_index(pairs, |e: (Seq<char>, u32)| e.0 == name)->0].1,
    )
}

/// The pin constraints of a design.
pub struct PcfFile {
    map: Vec<(String, u32)>,
}

impl View for PcfFile {
    type V = Map<Seq<char>, u32>;

    /// The pin of each constrained name.
    closed spec fn view(&self) -> Map<Seq<char>, u32> {
        pairs_map(self.map@.map_values(|e: (String, u32)| (e.0@, e.1)))
    }
}

impl PcfFile {
    /// The pin that `name` is bound to, if it is constrained. The name has
    /// to match exactly.
    pub fn pin(&self, name: &str) -> (r: Option<u32>)
        ensures
            r == if self@.contains_key(name@) {
                Some(self@[name@])
            } else {
                None
            },
    {
        let ghost pairs = self.map@.map_values(|e: (String, u32)| (e.0@, e.1));
        let ghost p = |e: (Seq<char>, u32)| e.0 == name@;
        let mut i: usize = 0;
        while i < self.map.len()
            invariant
                i <= self.map.len(),
                pairs == self.map@.map_values(|e: (String, u32)| (e.0@, e.1)),
                p == (|e: (Seq<char>, u32)| e.0 == name@),
                forall|j: int| 0 <= j < i ==> !p(#[trigger] pairs[j]),
            decreases self.map.len() - i,
        {
            if str_eq(self.map[i].0.as_str(), name) {
                proof {
                    assert(pairs[i as int].0 == name@);
                    assert(is_first(pairs, p, i as int));
                    lemma_first_index_is(pairs, p, i as int);
                }
                return Some(self.map[i].1);
            }
            i += 1;
        }
        proof {
            assert forall|j: int| 0 <= j < pairs.len() implies (#[trigger] pairs[j]).0 != name@ by {
                assert(!p(pairs[j]));
            }
        }
        None
    }

    /// The pin that bit `index` of the signal `name` is bound to.
    pub fn pinvec(&self, name: &str, index: usize) -> (r: Option<u32>)
        ensures
            r == if self@.contains_key(spec_indexed_name(name@, index as nat)) {
                Some(self@[spec_indexed_name(name@, index as nat)])
            } else {
                None
            },
    {
        let realname = indexed_name(name, index);
        self.pin(realname.as_str())
    }

    /// The constraints that the matches of the declaration pattern give:
    /// `None` where some match is no declaration or a name comes twice.
    pub fn from_captures(ms: &Vec<Vec<Option<String>>>) -> (r: Option<PcfFile>)
        ensures
            r is Some == declarations_valid(ms.deep_view()),
            r matches Some(pcf) ==> pcf@ == pairs_map(declarations(ms.deep_view())),
    {
        let ghost dv = ms.deep_view();
        let ghost to_pair = |e: (String, u32)| (e.0@, e.1);
        let mut map: Vec<(String, u32)> = Vec::new();
        let mut i: usize = 0;
        while i < ms.len()
            invariant
                i <= ms.len(),
                dv == ms.deep_view(),
                dv.len() == ms.len(),
                to_pair == (|e: (String, u32)| (e.0@, e.1)),
                declarations_valid(dv.take(i as int)),
                map.len() == i,
                map@.map_values(to_pair) == declarations(dv.take(i as int)),
            decreases ms.len() - i,
        {
            let m = &ms[i];
            proof {
                assert(dv[i as int] == m.deep_view());
                assert(dv.take(i as int + 1) =~= dv.take(i as int).push(dv[i as int]));
                assert(m.deep_view().len() == m.len());
            }
            if m.len() != 3 {
                proof {
                    lemma_invalid_at(dv, i as int);
                }
                return None;
            }
            proof {
                assert(dv[i as int][1] == m@[1].deep_view());
                assert(dv[i as int][2] == m@[2].deep_view());
            }
            let (name, pin) = match (&m[1], &m[2]) {
                (Some(name), Some(digits)) => match parse_pin(digits.as_str()) {
                    Some(pin) => (name, pin),
                    None => {
                        proof {
                            lemma_invalid_at(dv, i as int);
                        }
                        return None;
                    },
                },
                _ => {
                    proof {
                        lemma_invalid_at(dv, i as int);
                    }
                    return None;
                },
            };
            proof {
                assert(is_declaration(dv[i as int]));
                assert(declared_name(dv[i as int]) == name@);
                assert(declared_pin(dv[i as int]) == pin);
            }
            let mut k: usize = 0;
            while k < map.len()
                invariant
                    k <= map.len(),
                    i < ms.len(),
                    dv == ms.deep_view(),
                    dv.len() == ms.len(),
                    to_pair == (|e: (String, u32)| (e.0@, e.1)),
                    declarations_valid(dv.take(i as int)),
                    map.len() == i,
                    map@.map_values(to_pair) == declarations(dv.take(i as int)),
                    is_declaration(dv[i as int]),
                    declared_name(dv[i as int]) == name@,
                    declared_pin(dv[i as int]) == pin,
                    forall|j: int| 0 <= j < k ==> (#[trigger] map@[j]).0@ != name@,
                decreases map.len() - k,
            {
                if str_eq(map[k].0.as_str(), name.as_str()) {
                    proof {
                        let done = dv.take(i as int);
                        assert(map@.map_values(to_pair)[k as int] == declarations(done)[k as int]);
                        assert(declared_name(dv[k as int]) == name@);
                        lemma_duplicate_at(dv, k as int, i as int);
                    }
                    return None;
                }
                k += 1;
            }
            let ghost before = map@;
            map.push((name.clone(), pin));
            proof {
                let done = dv.take(i as int);
                let next = dv.take(i as int + 1);
                assert(map@.map_values(to_pair) =~= before.map_values(to_pair).push((name@, pin)));
                assert(declarations(next) =~= declarations(done).push((name@, pin)));
                assert forall|a: int, b: int| 0 <= a < b < next.len() implies declared_name(
                    #[trigger] next[a],
                ) != declared_name(#[trigger] next[b]) by {
                    if b < i {
                        assert(done[a] == next[a] && done[b] == next[b]);
                    } else {
                        assert(before.map_values(to_pair)[a] == declarations(done)[a]);
                        assert(before[a].0@ != name@);
                    }
                }
                assert forall|a: int| 0 <= a < next.len() implies is_declaration(
                    #[trigger] next[a],
                ) by {
                    if a < i {
                        assert(done[a] == next[a]);
                    }
                }
            }
            i += 1;
        }
        proof {
            assert(dv.take(ms.len() as int) =~= dv);
        }
        Some(PcfFile { map })
    }
}

/// A match that is no declaration makes the whole list invalid.
proof fn lemma_invalid_at(ms: Seq<Seq<Option<Seq<char>>>>, i: int)
    requires
        0 <= i < ms.len(),
        !is_declaration(ms[i]),
    ensures
        !declarations_valid(ms),
{
}

/// A name that is declared twice makes the whole list invalid.
proof fn lemma_duplicate_at(ms: Seq<Seq<Option<Seq<char>>>>, a: int, b: int)
    requires
        0 <= a < b < ms.len(),
        declared_name(ms[a]) == declared_name(ms[b]),
    ensures
        !declarations_valid(ms),
{
}

/// Reads the constraints from the text of a constraint file.
///
/// The text has to be valid. To read a text of which this is not known, use
/// [`try_parse_pcf`].
pub fn parse_pcf(input: &str) -> (pcf: PcfFile)
    requires
        constraints_valid(input@),
    ensures
        pcf@ == pairs_map(declarations(regex_captures(SET_IO_PATTERN@, input@)->0)),
{
    let found = captures_of(SET_IO_PATTERN, input);
    match found {
        Some(ms) => match PcfFile::from_captures(&ms) {
            Some(pcf) => pcf,
            None => vstd::pervasive::unreached(),
        },
        None => vstd::pervasive::unreached(),
    }
}

/// Reads the constraints from the text of a constraint file, or returns
/// `None` where the text is not valid: a pin that cannot be read, or a name
/// that is declared twice.
pub fn try_parse_pcf(input: &str) -> (r: Option<PcfFile>)
    ensures
        r is Some == constraints_valid(input@),
        r matches Some(pcf) ==> pcf@ == pairs_map(
            declarations(regex_captures(SET_IO_PATTERN@, input@)->0),
        ),
{
    let found = captures_of(SET_IO_PATTERN, input);
    let valid = match &found {
        Some(ms) => PcfFile::from_captures(ms).is_some(),
        None => false,
    };
    if valid {
        Some(parse_pcf(input))
    } else {
        None
    }
}

} // verus!
