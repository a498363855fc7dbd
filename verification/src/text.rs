//! Character-level utilities for the name mappings the sources use: dotted
//! paths, environment-variable names and kebab-cased command-line flags.
//!
//! All mappings are ASCII-oriented: letters outside `a..z` / `A..Z` are
//! carried through unchanged, as configuration field names are identifiers.

use vstd::prelude::*;

verus! {

pub open spec fn is_lower(c: char) -> bool {
    'a' <= c && c <= 'z'
}

pub open spec fn is_upper(c: char) -> bool {
    'A' <= c && c <= 'Z'
}

/// ASCII upper-casing of one character.
pub open spec fn upper_char(c: char) -> char {
    if is_lower(c) {
        (((c as u8) - 32) as char)
    } else {
        c
    }
}

/// ASCII lower-casing of one character.
pub open spec fn lower_char(c: char) -> char {
    if is_upper(c) {
        (((c as u8) + 32) as char)
    } else {
        c
    }
}

/// One character of an environment-variable name: dots become underscores,
/// letters are upper-cased.
pub open spec fn env_char(c: char) -> char {
    if c == '.' {
        '_'
    } else {
        upper_char(c)
    }
}

pub open spec fn upper_seq(s: Seq<char>) -> Seq<char> {
    s.map_values(|c: char| upper_char(c))
}

pub open spec fn env_seq(s: Seq<char>) -> Seq<char> {
    s.map_values(|c: char| env_char(c))
}

pub open spec fn lower_seq(s: Seq<char>) -> Seq<char> {
    s.map_values(|c: char| lower_char(c))
}

/// The environment-variable name of a dotted field path: the upper-cased
/// prefix and an underscore when a prefix is configured, then the path with
/// dots replaced by underscores, upper-cased.
pub open spec fn spec_env_var_name(prefix: Option<Seq<char>>, path: Seq<char>) -> Seq<char> {
    match prefix {
        None => env_seq(path),
        Some(p) => upper_seq(p) + seq!['_'] + env_seq(path),
    }
}

/// Kebab-casing of the characters after the first: an underscore becomes a
/// hyphen, and each upper-case letter becomes a hyphen followed by its
/// lower-case form.
pub open spec fn kebab_rest(s: Seq<char>) -> Seq<char>
    decreases s.len(),
{
    if s.len() == 0 {
        Seq::empty()
    } else {
        (if s[0] == '_' {
            seq!['-']
        } else if is_upper(s[0]) {
            seq!['-', lower_char(s[0])]
        } else {
            seq![s[0]]
        }) + kebab_rest(s.drop_first())
    }
}

/// The kebab-cased command-line flag name of a field name: underscores
/// become hyphens, the first character is lower-cased, and every later
/// upper-case letter becomes a preceding hyphen plus its lower-case form.
pub open spec fn spec_kebab(s: Seq<char>) -> Seq<char> {
    if s.len() == 0 {
        Seq::empty()
    } else {
        seq![if s[0] == '_' {
            '-'
        } else {
            lower_char(s[0])
        }] + kebab_rest(s.drop_first())
    }
}

/// Splitting a sequence at a separator, keeping empty segments, as
/// `str::split` does: the empty sequence yields one empty segment.
pub open spec fn split_on(s: Seq<char>, sep: char) -> Seq<Seq<char>>
    decreases s.len(),
{
    if s.len() == 0 {
        seq![Seq::empty()]
    } else if s[0] == sep {
        seq![Seq::<char>::empty()] + split_on(s.drop_first(), sep)
    } else {
        let rest = split_on(s.drop_first(), sep);
        seq![seq![s[0]] + rest[0]] + rest.drop_first()
    }
}

/// A sequence without the separator is one single segment.
pub proof fn lemma_split_on_no_sep(s: Seq<char>, sep: char)
    requires
        forall|i: int| 0 <= i < s.len() ==> s[i] != sep,
    ensures
        split_on(s, sep) == seq![s],
    decreases s.len(),
{
    if s.len() == 0 {
        assert(split_on(s, sep) =~~= seq![s]);
    } else {
        assert(forall|i: int| 0 <= i < s.drop_first().len() ==> #[trigger] s.drop_first()[i] == s[
            i + 1]);
        lemma_split_on_no_sep(s.drop_first(), sep);
        assert(seq![s[0]] + s.drop_first() =~= s);
        assert(split_on(s, sep) =~~= seq![s]);
    }
}

/// Splitting at the first separator: the head segment is everything before
/// it, and the remaining segments are the split of everything after it.
pub proof fn lemma_split_on_first_sep(s: Seq<char>, sep: char, i: int)
    requires
        0 <= i < s.len(),
        s[i] == sep,
        forall|j: int| 0 <= j < i ==> s[j] != sep,
    ensures
        split_on(s, sep) == seq![s.subrange(0, i)] + split_on(
            s.subrange(i + 1, s.len() as int),
            sep,
        ),
    decreases i,
{
    assert(forall|j: int| 0 <= j < s.drop_first().len() ==> #[trigger] s.drop_first()[j] == s[j
        + 1]);
    if i == 0 {
        assert(s.subrange(0, 0) =~= Seq::<char>::empty());
        assert(s.subrange(1, s.len() as int) =~= s.drop_first());
        assert(split_on(s, sep) =~= seq![s.subrange(0, 0)] + split_on(
            s.subrange(1, s.len() as int),
            sep,
        ));
    } else {
        lemma_split_on_first_sep(s.drop_first(), sep, i - 1);
        let rest = split_on(s.drop_first(), sep);
        assert(s.drop_first().subrange(0, i - 1) =~= s.subrange(1, i));
        assert(s.drop_first().subrange(i, s.drop_first().len() as int) =~= s.subrange(
            i + 1,
            s.len() as int,
        ));
        assert(rest[0] == s.subrange(1, i));
        assert(seq![s[0]] + s.subrange(1, i) =~= s.subrange(0, i));
        assert(rest.drop_first() =~= split_on(s.subrange(i + 1, s.len() as int), sep));
        assert(split_on(s, sep) =~= seq![s.subrange(0, i)] + split_on(
            s.subrange(i + 1, s.len() as int),
            sep,
        ));
    }
}

/// Relies on `String::push`: appends one character at the end.
#[verifier::external_body]
pub(crate) fn push_char(s: &mut String, c: char)
    ensures
        final(s)@ == old(s)@ + seq![c],
{
    s.push(c);
}

/// Whether two string slices hold the same characters.
pub fn str_eq(a: &str, b: &str) -> (r: bool)
    ensures
        r == (a@ == b@),
{
    let sa = a.to_owned();
    let sb = b.to_owned();
    sa == sb
}

/// ASCII upper-casing of one character.
pub fn to_upper(c: char) -> (r: char)
    ensures
        r == upper_char(c),
{
    if 'a' <= c && c <= 'z' {
        ((c as u8) - 32) as char
    } else {
        c
    }
}

/// ASCII lower-casing of one character.
pub fn to_lower(c: char) -> (r: char)
    ensures
        r == lower_char(c),
{
    if 'A' <= c && c <= 'Z' {
        ((c as u8) + 32) as char
    } else {
        c
    }
}

/// The string with every ASCII letter lower-cased.
pub fn lowercase(s: &str) -> (r: String)
    ensures
        r@ == lower_seq(s@),
{
    let mut out = String::new();
    let n = s.unicode_len();
    let mut i: usize = 0;
    while i < n
        invariant
            n == s@.len(),
            i <= n,
            out@ == lower_seq(s@).subrange(0, i as int),
        decreases n - i,
    {
        push_char(&mut out, to_lower(s.get_char(i)));
        proof {
            assert(out@ =~= lower_seq(s@).subrange(0, i + 1));
        }
        i = i + 1;
    }
    proof {
        assert(lower_seq(s@).subrange(0, s@.len() as int) =~= lower_seq(s@));
    }
    out
}

/// The environment-variable name of a dotted field path.
pub fn env_var_name(prefix: Option<&str>, path: &str) -> (r: String)
    ensures
        r@ == spec_env_var_name(
            match prefix {
                None => None,
                Some(p) => Some(p@),
            },
            path@,
        ),
{
    let mut out = String::new();
    match prefix {
        None => {},
        Some(p) => {
            let n = p.unicode_len();
            let mut i: usize = 0;
            while i < n
                invariant
                    n == p@.len(),
                    i <= n,
                    out@ == upper_seq(p@).subrange(0, i as int),
                decreases n - i,
            {
                let c = p.get_char(i);
                push_char(&mut out, to_upper(c));
                proof {
                    assert(out@ =~= upper_seq(p@).subrange(0, i + 1));
                }
                i = i + 1;
            }
            proof {
                assert(upper_seq(p@).subrange(0, p@.len() as int) =~= upper_seq(p@));
            }
            push_char(&mut out, '_');
        },
    }
    let ghost head = out@;
    let n = path.unicode_len();
    let mut i: usize = 0;
    while i < n
        invariant
            n == path@.len(),
            i <= n,
            out@ == head + env_seq(path@).subrange(0, i as int),
        decreases n - i,
    {
        let c = path.get_char(i);
        if c == '.' {
            push_char(&mut out, '_');
        } else {
            push_char(&mut out, to_upper(c));
        }
        proof {
            assert(out@ =~= head + env_seq(path@).subrange(0, i + 1));
        }
        i = i + 1;
    }
    proof {
        assert(env_seq(path@).subrange(0, path@.len() as int) =~= env_seq(path@));
        assert(out@ =~= spec_env_var_name(
            match prefix {
                None => None,
                Some(p) => Some(p@),
            },
            path@,
        ));
    }
    out
}

/// The kebab-cased flag name of a field name.
pub fn kebab_name(name: &str) -> (r: String)
    ensures
        r@ == spec_kebab(name@),
{
    let mut out = String::new();
    let n = name.unicode_len();
    if n == 0 {
        return out;
    }
    let first = name.get_char(0);
    if first == '_' {
        push_char(&mut out, '-');
    } else {
        push_char(&mut out, to_lower(first));
    }
    let ghost head = out@;
    let mut i: usize = 1;
    while i < n
        invariant
            n == name@.len(),
            1 <= i <= n,
            head == spec_kebab(name@).subrange(0, 1),
            head.len() == 1,
            out@ == head + kebab_rest(name@.subrange(1, i as int)),
        decreases n - i,
    {
        let c = name.get_char(i);
        let ghost pre = name@.subrange(1, i as int);
        proof {
            assert(name@.subrange(1, i + 1) =~= pre.push(name@[i as int]));
            lemma_kebab_rest_snoc(pre, name@[i as int]);
        }
        if c == '_' {
            push_char(&mut out, '-');
        } else if 'A' <= c && c <= 'Z' {
            push_char(&mut out, '-');
            push_char(&mut out, to_lower(c));
        } else {
            push_char(&mut out, c);
        }
        proof {
            assert(out@ =~= head + kebab_rest(name@.subrange(1, i + 1)));
        }
        i = i + 1;
    }
    proof {
        assert(name@.subrange(1, n as int) =~= name@.drop_first());
        assert(out@ =~= spec_kebab(name@));
    }
    out
}

/// `kebab_rest` of a sequence extended by one character.
proof fn lemma_kebab_rest_snoc(s: Seq<char>, c: char)
    ensures
        kebab_rest(s.push(c)) == kebab_rest(s) + (if c == '_' {
            seq!['-']
        } else if is_upper(c) {
            seq!['-', lower_char(c)]
        } else {
            seq![c]
        }),
    decreases s.len(),
{
    let tailpart = if c == '_' {
        seq!['-']
    } else if is_upper(c) {
        seq!['-', lower_char(c)]
    } else {
        seq![c]
    };
    if s.len() == 0 {
        assert(s.push(c).drop_first() =~= s);
        assert(kebab_rest(s.push(c).drop_first()) == kebab_rest(s));
        assert(s.push(c)[0] == c);
        assert(kebab_rest(s.push(c)) =~= kebab_rest(s) + tailpart);
    } else {
        assert(s.push(c).drop_first() =~= s.drop_first().push(c));
        lemma_kebab_rest_snoc(s.drop_first(), c);
        assert(s.push(c)[0] == s[0]);
        assert(kebab_rest(s.push(c)) =~= kebab_rest(s) + tailpart);
    }
}

/// Index of the first occurrence of `c`, if any.
pub fn find_char(s: &str, c: char) -> (r: Option<usize>)
    ensures
        match r {
            Some(i) => i < s@.len() && s@[i as int] == c && (forall|j: int|
                0 <= j < i ==> s@[j] != c),
            None => forall|j: int| 0 <= j < s@.len() ==> s@[j] != c,
        },
{
    let n = s.unicode_len();
    let mut i: usize = 0;
    while i < n
        invariant
            n == s@.len(),
            i <= n,
            forall|j: int| 0 <= j < i ==> s@[j] != c,
        decreases n - i,
    {
        if s.get_char(i) == c {
            return Some(i);
        }
        i = i + 1;
    }
    None
}

/// The dotted path split into its segments.
pub fn split_path(path: &str) -> (r: Vec<String>)
    ensures
        r.deep_view() == split_on(path@, '.'),
    decreases path@.len(),
{
    let n = path.unicode_len();
    let sep_at = find_char(path, '.');
    match sep_at {
        None => {
            proof {
                lemma_split_on_no_sep(path@, '.');
            }
            let mut r: Vec<String> = Vec::new();
            r.push(path.to_owned());
            proof {
                assert(r.deep_view() =~= split_on(path@, '.'));
            }
            r
        },
        Some(k) => {
            proof {
                lemma_split_on_first_sep(path@, '.', k as int);
            }
            let head = path.substring_char(0, k);
            let tail = path.substring_char(k + 1, n);
            let mut r = split_path(tail);
            r.insert(0, head.to_owned());
            proof {
                assert(r.deep_view() =~= split_on(path@, '.'));
            }
            r
        },
    }
}

} // verus!
