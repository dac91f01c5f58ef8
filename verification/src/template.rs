//! Placeholder templates: a `{name}` token is a name of word characters
//! enclosed in one pair of braces.  Scanning finds each distinct name in
//! order of first occurrence; substitution replaces every token whose name
//! is bound, left to right and in a single pass, so substituted text is
//! never scanned again.

use vstd::prelude::*;

use crate::table::Table;
use crate::text::{is_word_char, str_eq, word_char};

verus! {

/// Index just past the run of word characters that starts at `i`; never
/// before `i` nor past the end.
pub open spec fn word_run_end(s: Seq<char>, i: int) -> int
    decreases s.len() - i,
{
    if 0 <= i && i < s.len() && is_word_char(s[i]) {
        let r = word_run_end(s, i + 1);
        if i + 1 <= r && r <= s.len() {
            r
        } else {
            i + 1
        }
    } else {
        i
    }
}

/// If a placeholder token starts at `i` — `{`, at least one word character,
/// `}` — the index just past its closing brace.
pub open spec fn token_end_at(s: Seq<char>, i: int) -> Option<int> {
    if 0 <= i && i < s.len() && s[i] == '{' {
        let w = word_run_end(s, i + 1);
        if w > i + 1 && w < s.len() && s[w] == '}' {
            Some(w + 1)
        } else {
            None
        }
    } else {
        None
    }
}

/// The name inside the token that starts at `i`.
pub open spec fn token_name_at(s: Seq<char>, i: int, e: int) -> Seq<char> {
    s.subrange(i + 1, e - 1)
}

/// The template from `i` on with every bound token replaced by its value.
/// A token whose name is not bound stands as it is.
pub open spec fn subst_from(s: Seq<char>, b: Map<Seq<char>, Seq<char>>, i: int) -> Seq<char>
    decreases s.len() - i,
{
    if !(0 <= i && i < s.len()) {
        Seq::empty()
    } else {
        match token_end_at(s, i) {
            Some(e) => {
                let name = token_name_at(s, i, e);
                if b.contains_key(name) {
                    b[name] + subst_from(s, b, e)
                } else {
                    seq![s[i]] + subst_from(s, b, i + 1)
                }
            },
            None => seq![s[i]] + subst_from(s, b, i + 1),
        }
    }
}

/// The whole template with every bound token replaced.
pub open spec fn subst_spec(s: Seq<char>, b: Map<Seq<char>, Seq<char>>) -> Seq<char> {
    subst_from(s, b, 0)
}

/// The distinct placeholder names found from `i` on, appended to `acc` in
/// order of first occurrence.
pub open spec fn scan_from(s: Seq<char>, i: int, acc: Seq<Seq<char>>) -> Seq<Seq<char>>
    decreases s.len() - i,
{
    if !(0 <= i && i < s.len()) {
        acc
    } else {
        match token_end_at(s, i) {
            Some(e) => {
                let name = token_name_at(s, i, e);
                if acc.contains(name) {
                    scan_from(s, e, acc)
                } else {
                    scan_from(s, e, acc.push(name))
                }
            },
            None => scan_from(s, i + 1, acc),
        }
    }
}

/// The distinct placeholder names of a template, first occurrence first.
pub open spec fn distinct_names(s: Seq<char>) -> Seq<Seq<char>> {
    scan_from(s, 0, Seq::empty())
}

/// The characters of each string in a list.
pub open spec fn views_of(v: Seq<String>) -> Seq<Seq<char>> {
    v.map_values(|x: String| x@)
}

/// The characters of each value in a binding table.
pub open spec fn str_map_views(m: Map<Seq<char>, String>) -> Map<Seq<char>, Seq<char>> {
    Map::new(|k: Seq<char>| m.contains_key(k), |k: Seq<char>| m[k]@)
}

proof fn lemma_scan_grows(s: Seq<char>, i: int, acc: Seq<Seq<char>>)
    ensures
        scan_from(s, i, acc).len() >= acc.len(),
    decreases s.len() - i,
{
    if 0 <= i && i < s.len() {
        match token_end_at(s, i) {
            Some(e) => {
                let name = token_name_at(s, i, e);
                if acc.contains(name) {
                    lemma_scan_grows(s, e, acc);
                } else {
                    lemma_scan_grows(s, e, acc.push(name));
                }
            },
            None => {
                lemma_scan_grows(s, i + 1, acc);
            },
        }
    }
}

proof fn lemma_subst_identity_from(s: Seq<char>, b: Map<Seq<char>, Seq<char>>, i: int)
    requires
        0 <= i <= s.len(),
        scan_from(s, i, Seq::empty()) == Seq::<Seq<char>>::empty(),
    ensures
        subst_from(s, b, i) == s.subrange(i, s.len() as int),
    decreases s.len() - i,
{
    if i == s.len() {
        assert(s.subrange(i, s.len() as int) =~= Seq::<char>::empty());
    } else {
        match token_end_at(s, i) {
            Some(e) => {
                let name = token_name_at(s, i, e);
                lemma_scan_grows(s, e, Seq::<Seq<char>>::empty().push(name));
                assert(false);
            },
            None => {
                lemma_subst_identity_from(s, b, i + 1);
                assert(seq![s[i]] + s.subrange(i + 1, s.len() as int) =~= s.subrange(
                    i,
                    s.len() as int,
                ));
            },
        }
    }
}

/// A template with no placeholders resolves to itself, whatever values are
/// bound: substitution returns the template unchanged.
pub proof fn lemma_no_placeholders_identity(s: Seq<char>, b: Map<Seq<char>, Seq<char>>)
    requires
        distinct_names(s) == Seq::<Seq<char>>::empty(),
    ensures
        subst_spec(s, b) == s,
{
    lemma_subst_identity_from(s, b, 0);
    assert(s.subrange(0, s.len() as int) =~= s);
}

/// If a token starts at `i`, its end; found by walking the word run.
fn token_end_exec(s: &str, i: usize) -> (r: Option<usize>)
    requires
        i <= s@.len(),
    ensures
        match r {
            Some(e) => token_end_at(s@, i as int) == Some(e as int) && i + 2 < e <= s@.len(),
            None => token_end_at(s@, i as int) == None::<int>,
        },
{
    let len = s.unicode_len();
    if !(i < len && s.get_char(i) == '{') {
        return None;
    }
    let mut w = i + 1;
    while w < len && word_char(s.get_char(w))
        invariant
            i + 1 <= w <= len,
            len == s@.len(),
            word_run_end(s@, i + 1) == word_run_end(s@, w as int),
        decreases len - w,
    {
        proof {
            assert(w + 1 <= word_run_end(s@, w + 1) <= s@.len());
            assert(word_run_end(s@, w as int) == word_run_end(s@, w + 1));
        }
        w = w + 1;
    }
    if w > i + 1 && w < len && s.get_char(w) == '}' {
        Some(w + 1)
    } else {
        None
    }
}

/// The distinct placeholder names of a template, in order of first
/// occurrence.
pub fn scan_template(s: &str) -> (r: Vec<String>)
    ensures
        views_of(r@) == distinct_names(s@),
{
    let len = s.unicode_len();
    let mut out: Vec<String> = Vec::new();
    let mut i: usize = 0;
    proof {
        assert(views_of(out@) =~= Seq::<Seq<char>>::empty());
    }
    while i < len
        invariant
            0 <= i <= len,
            len == s@.len(),
            scan_from(s@, 0, Seq::empty()) == scan_from(s@, i as int, views_of(out@)),
        decreases len - i,
    {
        match token_end_exec(s, i) {
            Some(e) => {
                let name = s.substring_char(i + 1, e - 1);
                proof {
                    assert(name@ == token_name_at(s@, i as int, e as int));
                }
                if !contains_name(&out, name) {
                    let ghost old_out = out@;
                    out.push(name.to_owned());
                    proof {
                        assert(views_of(out@) =~= views_of(old_out).push(name@));
                    }
                }
                i = e;
            },
            None => {
                i = i + 1;
            },
        }
    }
    out
}

/// Whether one of the strings holds exactly these characters.
fn contains_name(v: &Vec<String>, name: &str) -> (b: bool)
    ensures
        b == views_of(v@).contains(name@),
{
    let n = v.len();
    let mut k: usize = 0;
    while k < n
        invariant
            0 <= k <= n,
            n == v@.len(),
            forall|x: int| 0 <= x < k ==> v@[x]@ != name@,
        decreases n - k,
    {
        if str_eq(v[k].as_str(), name) {
            proof {
                assert(views_of(v@)[k as int] == name@);
            }
            return true;
        }
        k = k + 1;
    }
    proof {
        assert forall|x: int| 0 <= x < views_of(v@).len() implies views_of(v@)[x] != name@ by {
            assert(v@[x]@ != name@);
        }
    }
    false
}

/// Replace every bound `{name}` token in the template by its value, in one
/// left-to-right pass.
pub fn substitute(template: &str, bindings: &Table<String>) -> (r: String)
    ensures
        r@ == subst_spec(template@, str_map_views(bindings@)),
{
    let len = template.unicode_len();
    let ghost b = str_map_views(bindings@);
    let mut out = String::new();
    let mut i: usize = 0;
    while i < len
        invariant
            0 <= i <= len,
            len == template@.len(),
            b == str_map_views(bindings@),
            out@ + subst_from(template@, b, i as int) == subst_from(template@, b, 0),
        decreases len - i,
    {
        let ghost out_old = out@;
        match token_end_exec(template, i) {
            Some(e) => {
                let name = template.substring_char(i + 1, e - 1);
                proof {
                    assert(name@ == token_name_at(template@, i as int, e as int));
                }
                match bindings.get(name) {
                    Some(v) => {
                        out.append(v.as_str());
                        proof {
                            assert(b.contains_key(name@) && b[name@] == v@);
                            assert((out_old + v@) + subst_from(template@, b, e as int)
                                =~= out_old + (v@ + subst_from(template@, b, e as int)));
                        }
                        i = e;
                    },
                    None => {
                        let piece = template.substring_char(i, i + 1);
                        out.append(piece);
                        proof {
                            assert(!b.contains_key(name@));
                            assert(piece@ =~= seq![template@[i as int]]);
                            assert((out_old + seq![template@[i as int]]) + subst_from(
                                template@,
                                b,
                                i + 1,
                            ) =~= out_old + (seq![template@[i as int]] + subst_from(
                                template@,
                                b,
                                i + 1,
                            )));
                        }
                        i = i + 1;
                    },
                }
            },
            None => {
                let piece = template.substring_char(i, i + 1);
                out.append(piece);
                proof {
                    assert(piece@ =~= seq![template@[i as int]]);
                    assert((out_old + seq![template@[i as int]]) + subst_from(
                        template@,
                        b,
                        i + 1,
                    ) =~= out_old + (seq![template@[i as int]] + subst_from(template@, b, i + 1)));
                }
                i = i + 1;
            },
        }
    }
    proof {
        assert(subst_from(template@, b, len as int) =~= Seq::<char>::empty());
        assert(out@ + Seq::<char>::empty() =~= out@);
    }
    out
}

} // verus!
