//! `application/x-www-form-urlencoded` bodies: percent/plus decoding, a
//! key/value store with last-write-wins semantics, and typed retrieval.

use crate::json::{distinct_keys, entries_fold, entries_map, entries_put, lemma_entries_fold_push,
    lemma_entries_map_at, lemma_entries_map_lookup, lemma_entries_map_update,
    lemma_entries_put_at, map_get};
use crate::strutil::{
    append_chars, chars_to_string, join_chars, match_at, parse_i32_chars, replace_chars,
    spec_replace, spec_split, split_chars, str_to_chars, spec_join, int_chars_val, is_int_chars,
};
use vstd::prelude::*;
use vstd::string::*;

verus! {

/// The decoding applied to form-encoded text: `+` becomes a space, then
/// each supported percent escape is folded, `%25` after the others so that
/// freshly produced percent signs are not re-interpreted.
pub open spec fn decode_url_chars(s: Seq<char>) -> Seq<char> {
    let s1 = spec_replace(s, seq!['+'], seq![' ']);
    let s2 = spec_replace(s1, seq!['%', '2', '0'], seq![' ']);
    let s3 = spec_replace(s2, seq!['%', '2', '1'], seq!['!']);
    let s4 = spec_replace(s3, seq!['%', '2', '2'], seq!['"']);
    let s5 = spec_replace(s4, seq!['%', '2', '3'], seq!['#']);
    let s6 = spec_replace(s5, seq!['%', '2', '4'], seq!['$']);
    let s7 = spec_replace(s6, seq!['%', '2', '6'], seq!['&']);
    let s8 = spec_replace(s7, seq!['%', '2', '7'], seq!['\'']);
    let s9 = spec_replace(s8, seq!['%', '2', '8'], seq!['(']);
    let s10 = spec_replace(s9, seq!['%', '2', '9'], seq![')']);
    let s11 = spec_replace(s10, seq!['%', '2', 'A'], seq!['*']);
    let s12 = spec_replace(s11, seq!['%', '2', 'B'], seq!['+']);
    let s13 = spec_replace(s12, seq!['%', '2', 'C'], seq![',']);
    let s14 = spec_replace(s13, seq!['%', '2', '5'], seq!['%']);
    let s15 = spec_replace(s14, seq!['%', '5', 'B'], seq!['[']);
    spec_replace(s15, seq!['%', '5', 'D'], seq![']'])
}

fn pat1(a: char) -> (r: Vec<char>)
    ensures
        r@ == seq![a],
{
    let mut v: Vec<char> = Vec::new();
    v.push(a);
    proof {
        assert(v@ =~= seq![a]);
    }
    v
}

fn pat3(a: char, b: char, c: char) -> (r: Vec<char>)
    ensures
        r@ == seq![a, b, c],
{
    let mut v: Vec<char> = Vec::new();
    v.push(a);
    v.push(b);
    v.push(c);
    proof {
        assert(v@ =~= seq![a, b, c]);
    }
    v
}

/// Applies the form decoding to a character vector.
pub fn decode_url_exec(s: &Vec<char>) -> (r: Vec<char>)
    ensures
        r@ == decode_url_chars(s@),
{
    let s1 = replace_chars(s, &pat1('+'), &pat1(' '));
    let s2 = replace_chars(&s1, &pat3('%', '2', '0'), &pat1(' '));
    let s3 = replace_chars(&s2, &pat3('%', '2', '1'), &pat1('!'));
    let s4 = replace_chars(&s3, &pat3('%', '2', '2'), &pat1('"'));
    let s5 = replace_chars(&s4, &pat3('%', '2', '3'), &pat1('#'));
    let s6 = replace_chars(&s5, &pat3('%', '2', '4'), &pat1('$'));
    let s7 = replace_chars(&s6, &pat3('%', '2', '6'), &pat1('&'));
    let s8 = replace_chars(&s7, &pat3('%', '2', '7'), &pat1('\''));
    let s9 = replace_chars(&s8, &pat3('%', '2', '8'), &pat1('('));
    let s10 = replace_chars(&s9, &pat3('%', '2', '9'), &pat1(')'));
    let s11 = replace_chars(&s10, &pat3('%', '2', 'A'), &pat1('*'));
    let s12 = replace_chars(&s11, &pat3('%', '2', 'B'), &pat1('+'));
    let s13 = replace_chars(&s12, &pat3('%', '2', 'C'), &pat1(','));
    let s14 = replace_chars(&s13, &pat3('%', '2', '5'), &pat1('%'));
    let s15 = replace_chars(&s14, &pat3('%', '5', 'B'), &pat1('['));
    replace_chars(&s15, &pat3('%', '5', 'D'), &pat1(']'))
}

/// The key/value pair read from one `&`-separated piece: the part before
/// the first `=` (form-decoded) and the part after it (kept raw).  Pieces
/// without `=` are dropped; text after a second `=` is dropped too.
pub open spec fn ue_pair(piece: Seq<char>) -> Option<(Seq<char>, Seq<char>)> {
    let parts = spec_split(piece, '=');
    if parts.len() >= 2 {
        Some((decode_url_chars(parts[0]), parts[1]))
    } else {
        None
    }
}

/// The pairs read from a sequence of pieces, in order.
pub open spec fn ue_pairs(pieces: Seq<Seq<char>>) -> Seq<(Seq<char>, Seq<char>)>
    decreases pieces.len(),
{
    if pieces.len() == 0 {
        Seq::empty()
    } else {
        let rest = ue_pairs(pieces.skip(1));
        match ue_pair(pieces[0]) {
            Some(p) => seq![p] + rest,
            None => rest,
        }
    }
}

/// The mapping described by form-encoded text, a later pair overriding an
/// earlier one with the same key.
pub open spec fn ue_map(s: Seq<char>) -> Map<Seq<char>, Seq<char>> {
    entries_map(ue_pairs(spec_split(s, '&')))
}

/// Representation of `application/x-www-form-urlencoded` data.
#[derive(Debug)]
pub struct UrlEncoded {
    values: Vec<(String, String)>,
}

impl UrlEncoded {
    /// The key/raw-value pairs, as character sequences.
    pub closed spec fn entries(&self) -> Seq<(Seq<char>, Seq<char>)> {
        self.values@.map_values(|p: (String, String)| (p.0@, p.1@))
    }

    /// Well-formed: no key occurs twice.
    pub open spec fn wf(&self) -> bool {
        distinct_keys(self.entries())
    }
}

impl View for UrlEncoded {
    type V = Map<Seq<char>, Seq<char>>;

    open spec fn view(&self) -> Map<Seq<char>, Seq<char>> {
        entries_map(self.entries())
    }
}

impl UrlEncoded {
    /// Stores a value under a key, replacing any earlier value there.
    fn set_raw(&mut self, key: String, value: String)
        requires
            old(self).wf(),
        ensures
            final(self).wf(),
            final(self)@ == old(self)@.insert(key@, value@),
            final(self).entries() == entries_put(old(self).entries(), key@, value@),
    {
        let ghost es = self.entries();
        let mut i: usize = 0;
        while i < self.values.len()
            invariant
                i <= self.values.len(),
                es == self.entries(),
                old(self).wf(),
                self == old(self),
                forall|j: int| 0 <= j < i ==> (#[trigger] es[j]).0 != key@,
            decreases self.values.len() - i,
        {
            if self.values[i].0 == key {
                proof {
                    assert(es[i as int].0 == key@);
                }
                self.values[i] = (key, value);
                proof {
                    assert(self.entries() =~= es.update(i as int, (key@, value@)));
                    lemma_entries_map_update(es, i as int, key@, value@);
                    assert(distinct_keys(self.entries())) by {
                        assert(forall|a: int, b: int|
                            0 <= a < b < es.len() && a != i && b != i ==> (
                            #[trigger] es[a]).0 != (#[trigger] es[b]).0);
                    }
                    lemma_entries_put_at(es, key@, value@, i as int);
                    assert(self.entries() =~= es.take(i as int) + seq![(key@, value@)] + es.skip(
                        i + 1,
                    ));
                }
                return ;
            }
            proof {
                assert(es[i as int].0 != key@);
            }
            i = i + 1;
        }
        self.values.push((key, value));
        proof {
            assert(self.entries() =~= es.push((key@, value@)));
            assert(self.entries().drop_last() =~= es);
            assert(distinct_keys(self.entries())) by {
                assert(forall|a: int|
                    0 <= a < es.len() ==> #[trigger] self.entries()[a] == es[a]);
                assert(self.entries().last().0 == key@);
            }
            lemma_entries_put_at(es, key@, value@, es.len() as int);
        }
    }

    /// Looks a key up, handing back the raw value stored under it.
    fn get_raw(&self, key: &str) -> (r: Option<&String>)
        requires
            self.wf(),
        ensures
            match r {
                Some(v) => self@.contains_key(key@) && self@[key@] == v@,
                None => !self@.contains_key(key@),
            },
    {
        let k: String = key.to_owned();
        let ghost es = self.entries();
        let mut i: usize = 0;
        while i < self.values.len()
            invariant
                i <= self.values.len(),
                es == self.entries(),
                self.wf(),
                k@ == key@,
                forall|j: int| 0 <= j < i ==> (#[trigger] es[j]).0 != key@,
            decreases self.values.len() - i,
        {
            if self.values[i].0 == k {
                proof {
                    assert(es[i as int].0 == key@);
                    lemma_entries_map_at(es, i as int);
                }
                return Some(&self.values[i].1);
            }
            proof {
                assert(es[i as int].0 != key@);
            }
            i = i + 1;
        }
        proof {
            lemma_entries_map_lookup(es, key@);
        }
        None
    }

    /// Parses form-encoded text: pieces are split on `&`, keys and values
    /// on the first `=`, and keys are form-decoded; a later duplicate key
    /// overrides an earlier one.
    pub fn from_string(d: String) -> (r: UrlEncoded)
        ensures
            r.wf(),
            r@ == ue_map(d@),
            r.entries() == entries_fold(ue_pairs(spec_split(d@, '&')), Seq::empty()),
    {
        let cs = str_to_chars(d.as_str());
        let pieces = split_chars(&cs, '&');
        let ghost pv = pieces@.map_values(|p: Vec<char>| p@);
        let mut r = UrlEncoded { values: Vec::new() };
        proof {
            assert(r.entries() =~= Seq::<(Seq<char>, Seq<char>)>::empty());
        }
        let ghost mut done: Seq<(Seq<char>, Seq<char>)> = Seq::empty();
        let mut i: usize = 0;
        proof {
            assert(pv.skip(0) =~= pv);
            assert(done + ue_pairs(pv) =~= ue_pairs(pv));
        }
        while i < pieces.len()
            invariant
                i <= pieces.len(),
                pv == pieces@.map_values(|p: Vec<char>| p@),
                r.wf(),
                r@ == entries_map(done),
                r.entries() == entries_fold(done, Seq::<(Seq<char>, Seq<char>)>::empty()),
                ue_pairs(pv) == done + ue_pairs(pv.skip(i as int)),
            decreases pieces.len() - i,
        {
            let ghost rem = pv.skip(i as int);
            proof {
                assert(rem[0] == pv[i as int]);
                assert(rem.skip(1) =~= pv.skip(i + 1));
            }
            let parts = split_chars(&pieces[i], '=');
            proof {
                assert(parts@.map_values(|p: Vec<char>| p@) == spec_split(pv[i as int], '='));
            }
            if parts.len() >= 2 {
                let keyc = decode_url_exec(&parts[0]);
                let key_s = chars_to_string(&keyc);
                let val_s = chars_to_string(&parts[1]);
                proof {
                    assert(parts@[0]@ == spec_split(pv[i as int], '=')[0]);
                    assert(parts@[1]@ == spec_split(pv[i as int], '=')[1]);
                    assert(ue_pair(rem[0]) == Some((key_s@, val_s@)));
                }
                r.set_raw(key_s, val_s);
                proof {
                    let p = ue_pair(rem[0]).unwrap();
                    let prev_done = done;
                    done = done.push(p);
                    assert(done.drop_last() =~= prev_done);
                    assert(entries_map(done) == entries_map(prev_done).insert(p.0, p.1));
                    lemma_entries_fold_push(
                        prev_done,
                        Seq::<(Seq<char>, Seq<char>)>::empty(),
                        p,
                    );
                    assert(ue_pairs(rem) =~= seq![p] + ue_pairs(rem.skip(1)));
                    assert(ue_pairs(pv) =~= done + ue_pairs(pv.skip(i + 1)));
                }
            } else {
                proof {
                    assert(ue_pair(rem[0]) is None);
                    assert(ue_pairs(rem) =~= ue_pairs(rem.skip(1)));
                }
            }
            i = i + 1;
        }
        proof {
            assert(pv.skip(i as int) =~= Seq::<Seq<char>>::empty());
            assert(ue_pairs(Seq::<Seq<char>>::empty()) =~= Seq::<(Seq<char>, Seq<char>)>::empty());
            assert(done =~= ue_pairs(pv));
            assert(cs@ == d@);
        }
        r
    }

    /// Retrieves a value, form-decodes it, and converts it through
    /// `FromUrlEncoded`.
    pub fn get<T: FromUrlEncoded>(&self, key: &str) -> (r: Option<T>)
        requires
            self.wf(),
        ensures
            match map_get(self@, key@) {
                Some(v) => T::from_url_rel(decode_url_chars(v), r),
                None => r is None,
            },
    {
        match self.get_raw(key) {
            Some(v) => {
                let cs = str_to_chars(v.as_str());
                let dec = decode_url_exec(&cs);
                let ds = chars_to_string(&dec);
                T::from_url_encoded(ds.as_str())
            }
            None => None,
        }
    }
}

/// `p` opens `s`.
pub open spec fn is_prefix(p: Seq<char>, s: Seq<char>) -> bool {
    p.len() <= s.len() && s.subrange(0, p.len() as int) == p
}

/// `s` with the first occurrence of `c` dropped.
pub open spec fn remove_first(s: Seq<char>, c: char) -> Seq<char>
    decreases s.len(),
{
    if s.len() == 0 {
        s
    } else if s[0] == c {
        s.skip(1)
    } else {
        seq![s[0]] + remove_first(s.skip(1), c)
    }
}

/// Drops the first occurrence of `c` from a character vector.
fn remove_first_exec(s: &Vec<char>, c: char) -> (r: Vec<char>)
    ensures
        r@ == remove_first(s@, c),
{
    let mut out: Vec<char> = Vec::new();
    let mut i: usize = 0;
    proof {
        assert(s@.skip(0) =~= s@);
        assert(out@ =~= s@.subrange(0, 0));
    }
    while i < s.len()
        invariant
            i <= s.len(),
            out@ == s@.subrange(0, i as int),
            remove_first(s@, c) == out@ + remove_first(s@.skip(i as int), c),
        decreases s.len() - i,
    {
        let ghost rem = s@.skip(i as int);
        proof {
            assert(rem[0] == s@[i as int]);
            assert(rem.skip(1) =~= s@.skip(i + 1));
        }
        let ch: char = s[i];
        if ch == c {
            let rest = crate::strutil::sub_chars(s, i + 1, s.len());
            append_chars(&mut out, &rest);
            proof {
                assert(rest@ =~= s@.skip(i + 1));
                assert(remove_first(rem, c) == s@.skip(i + 1));
                assert(out@ =~= s@.subrange(0, i as int) + s@.skip(i + 1));
            }
            return out;
        }
        out.push(ch);
        i = i + 1;
        proof {
            assert(out@ =~= s@.subrange(0, i as int));
            assert(remove_first(s@, c) =~= out@ + remove_first(s@.skip(i as int), c));
        }
    }
    proof {
        assert(s@.skip(i as int) =~= Seq::<char>::empty());
        assert(out@ + Seq::<char>::empty() =~= out@);
    }
    out
}

/// The `key=value` pieces rebuilt from entries nested under `key[...]`:
/// the bracketed remainder of each matching entry, its first closing
/// bracket dropped, equated with the stored value.
pub open spec fn dict_pieces(
    es: Seq<(Seq<char>, Seq<char>)>,
    key: Seq<char>,
) -> Seq<Seq<char>>
    decreases es.len(),
{
    if es.len() == 0 {
        Seq::empty()
    } else {
        let rest = dict_pieces(es.skip(1), key);
        if is_prefix(key + seq!['['], es[0].0) {
            seq![
                remove_first(es[0].0.skip(key.len() as int + 1), ']') + seq!['='] + es[0].1,
            ] + rest
        } else {
            rest
        }
    }
}

impl UrlEncoded {
    /// Rebuilds nested dictionary-style data: entries whose keys open
    /// with `key[` are re-encoded with the bracket level stripped and
    /// parsed again.
    pub fn get_dict(&self, key: &str) -> (r: Option<UrlEncoded>)
        requires
            self.wf(),
        ensures
            r matches Some(u) && u.wf() && u@ == ue_map(
                spec_join(dict_pieces(self.entries(), key@), seq!['&']),
            ),
    {
        let kc = str_to_chars(key);
        let mut pref = kc;
        pref.push('[');
        proof {
            assert(pref@ =~= key@ + seq!['[']);
        }
        let ghost es = self.entries();
        let mut pieces: Vec<Vec<char>> = Vec::new();
        let mut i: usize = 0;
        proof {
            assert(es.skip(0) =~= es);
            assert(pieces@.map_values(|p: Vec<char>| p@) + dict_pieces(es, key@) =~= dict_pieces(
                es,
                key@,
            ));
        }
        while i < self.values.len()
            invariant
                i <= self.values.len(),
                es == self.entries(),
                pref@ == key@ + seq!['['],
                dict_pieces(es, key@) == pieces@.map_values(|p: Vec<char>| p@) + dict_pieces(
                    es.skip(i as int),
                    key@,
                ),
            decreases self.values.len() - i,
        {
            let ghost rem = es.skip(i as int);
            proof {
                assert(rem[0] == es[i as int]);
                assert(rem.skip(1) =~= es.skip(i + 1));
            }
            let entry_key = str_to_chars(self.values[i].0.as_str());
            if match_at(&entry_key, 0, &pref) {
                proof {
                    assert(entry_key@.subrange(0, pref@.len() as int) == pref@);
                    assert(is_prefix(key@ + seq!['['], rem[0].0));
                }
                let tail = crate::strutil::sub_chars(&entry_key, pref.len(), entry_key.len());
                proof {
                    assert(tail@ =~= rem[0].0.skip(key@.len() as int + 1));
                }
                let stripped = remove_first_exec(&tail, ']');
                let mut piece = stripped;
                piece.push('=');
                let vc = str_to_chars(self.values[i].1.as_str());
                append_chars(&mut piece, &vc);
                proof {
                    assert(piece@ =~= remove_first(rem[0].0.skip(key@.len() as int + 1), ']')
                        + seq!['='] + rem[0].1);
                }
                let ghost prev = pieces@;
                let ghost pv = piece@;
                pieces.push(piece);
                proof {
                    assert(pv == remove_first(rem[0].0.skip(key@.len() as int + 1), ']') + seq!['=']
                        + rem[0].1);
                    assert(dict_pieces(rem, key@) =~= seq![pv] + dict_pieces(rem.skip(1), key@));
                    assert(pieces@.map_values(|p: Vec<char>| p@) =~= prev.map_values(
                        |p: Vec<char>| p@,
                    ) + seq![pv]);
                    assert(dict_pieces(es, key@) =~= pieces@.map_values(|p: Vec<char>| p@)
                        + dict_pieces(es.skip(i + 1), key@));
                }
            } else {
                proof {
                    assert(!is_prefix(key@ + seq!['['], rem[0].0));
                    assert(dict_pieces(rem, key@) =~= dict_pieces(rem.skip(1), key@));
                }
            }
            i = i + 1;
        }
        proof {
            assert(es.skip(i as int) =~= Seq::<(Seq<char>, Seq<char>)>::empty());
            assert(dict_pieces(Seq::<(Seq<char>, Seq<char>)>::empty(), key@) =~= Seq::<
                Seq<char>,
            >::empty());
            assert(pieces@.map_values(|p: Vec<char>| p@) =~= dict_pieces(es, key@));
        }
        let mut sep: Vec<char> = Vec::new();
        sep.push('&');
        proof {
            assert(sep@ =~= seq!['&']);
        }
        let joined = join_chars(&pieces, &sep);
        let js = chars_to_string(&joined);
        Some(UrlEncoded::from_string(js))
    }
}

/// The bracketed remainder of a matching entry key, its first opening
/// bracket dropped, split at closing brackets.
pub open spec fn vec_key_parts(e: (Seq<char>, Seq<char>), key: Seq<char>) -> Seq<Seq<char>> {
    spec_split(remove_first(e.0.skip(key.len() as int + 1), '['), ']')
}

/// What indexed retrieval demands of every entry nested under `key[`:
/// the text before the first closing bracket parses as an array index.
pub open spec fn vec_entries_ok(
    es: Seq<(Seq<char>, Seq<char>)>,
    key: Seq<char>,
    need_payload: bool,
) -> bool {
    forall|i: int|
        0 <= i < es.len() && is_prefix(key + seq!['['], (#[trigger] es[i]).0) ==> {
            let parts = vec_key_parts(es[i], key);
            is_int_chars(parts[0]) && i32::MIN <= int_chars_val(parts[0]) <= i32::MAX && (
            need_payload ==> parts.len() >= 2)
        }
}

/// Inserts into an index-sorted group list; an existing group under the
/// same index either grows by `&` and the piece, or is replaced by it.
pub open spec fn grp_upsert(
    g: Seq<(int, Seq<char>)>,
    ix: int,
    piece: Seq<char>,
    append: bool,
) -> Seq<(int, Seq<char>)>
    decreases g.len(),
{
    if g.len() == 0 {
        seq![(ix, piece)]
    } else if g[0].0 == ix {
        if append {
            seq![(g[0].0, g[0].1 + seq!['&'] + piece)] + g.skip(1)
        } else {
            seq![(ix, piece)] + g.skip(1)
        }
    } else if ix < g[0].0 {
        seq![(ix, piece)] + g
    } else {
        seq![g[0]] + grp_upsert(g.skip(1), ix, piece, append)
    }
}

/// The index a matching entry names.
pub open spec fn vec_entry_ix(e: (Seq<char>, Seq<char>), key: Seq<char>) -> int {
    int_chars_val(vec_key_parts(e, key)[0])
}

/// The piece a matching entry contributes to its group: for dictionary
/// retrieval the remainder of the key equated with the value, for plain
/// retrieval the value alone.
pub open spec fn vec_entry_piece(
    e: (Seq<char>, Seq<char>),
    key: Seq<char>,
    with_subkey: bool,
) -> Seq<char> {
    if with_subkey {
        vec_key_parts(e, key)[1] + seq!['='] + e.1
    } else {
        e.1
    }
}

/// The groups gathered from the entries in order, ascending by index.
pub open spec fn vec_groups(
    es: Seq<(Seq<char>, Seq<char>)>,
    key: Seq<char>,
    acc: Seq<(int, Seq<char>)>,
    with_subkey: bool,
) -> Seq<(int, Seq<char>)>
    decreases es.len(),
{
    if es.len() == 0 {
        acc
    } else {
        let acc2 = if is_prefix(key + seq!['['], es[0].0) {
            grp_upsert(
                acc,
                vec_entry_ix(es[0], key),
                vec_entry_piece(es[0], key, with_subkey),
                with_subkey,
            )
        } else {
            acc
        };
        vec_groups(es.skip(1), key, acc2, with_subkey)
    }
}

/// How a list of converted values relates to the index-sorted groups:
/// walking the groups in order, each either converts and contributes the
/// next element, or its conversion fails and it is dropped.  For a type
/// whose conversion never fails, every group contributes.
pub open spec fn gathered_values<T: FromUrlEncoded>(
    groups: Seq<(int, Seq<char>)>,
    list: Seq<T>,
) -> bool
    decreases groups.len(),
{
    if groups.len() == 0 {
        list.len() == 0
    } else {
        (list.len() > 0 && T::from_url_rel(decode_url_chars(groups[0].1), Some(list[0]))
            && gathered_values::<T>(groups.skip(1), list.skip(1))) || (T::from_url_rel(
            decode_url_chars(groups[0].1),
            Option::None,
        ) && gathered_values::<T>(groups.skip(1), list))
    }
}

/// A converting group appended on the right extends the list on the
/// right.
proof fn lemma_gathered_snoc_some<T: FromUrlEncoded>(
    groups: Seq<(int, Seq<char>)>,
    list: Seq<T>,
    g: (int, Seq<char>),
    v: T,
)
    requires
        gathered_values::<T>(groups, list),
        T::from_url_rel(decode_url_chars(g.1), Some(v)),
    ensures
        gathered_values::<T>(groups.push(g), list.push(v)),
    decreases groups.len(),
{
    let g2 = groups.push(g);
    let l2 = list.push(v);
    if groups.len() == 0 {
        assert(g2[0] == g);
        assert(l2[0] == v);
        assert(g2.skip(1) =~= Seq::<(int, Seq<char>)>::empty());
        assert(l2.skip(1) =~= Seq::<T>::empty());
        assert(gathered_values::<T>(g2.skip(1), l2.skip(1)));
        assert(l2.len() > 0 && T::from_url_rel(decode_url_chars(g2[0].1), Some(l2[0])));
        assert(gathered_values::<T>(g2, l2));
    } else {
        assert(g2[0] == groups[0]);
        assert(g2.skip(1) =~= groups.skip(1).push(g));
        if list.len() > 0 && T::from_url_rel(decode_url_chars(groups[0].1), Some(list[0]))
            && gathered_values::<T>(groups.skip(1), list.skip(1)) {
            lemma_gathered_snoc_some::<T>(groups.skip(1), list.skip(1), g, v);
            assert(l2[0] == list[0]);
            assert(l2.skip(1) =~= list.skip(1).push(v));
            assert(gathered_values::<T>(g2.skip(1), l2.skip(1)));
            assert(l2.len() > 0 && T::from_url_rel(decode_url_chars(g2[0].1), Some(l2[0])));
            assert(gathered_values::<T>(g2, l2));
        } else {
            assert(T::from_url_rel(decode_url_chars(groups[0].1), Option::None)
                && gathered_values::<T>(groups.skip(1), list));
            lemma_gathered_snoc_some::<T>(groups.skip(1), list, g, v);
            assert(gathered_values::<T>(g2.skip(1), l2));
            assert(T::from_url_rel(decode_url_chars(g2[0].1), Option::None));
            assert(gathered_values::<T>(g2, l2));
        }
    }
}

/// A non-converting group appended on the right leaves the list alone.
proof fn lemma_gathered_snoc_none<T: FromUrlEncoded>(
    groups: Seq<(int, Seq<char>)>,
    list: Seq<T>,
    g: (int, Seq<char>),
)
    requires
        gathered_values::<T>(groups, list),
        T::from_url_rel(decode_url_chars(g.1), Option::None),
    ensures
        gathered_values::<T>(groups.push(g), list),
    decreases groups.len(),
{
    let g2 = groups.push(g);
    if groups.len() == 0 {
        assert(g2[0] == g);
        assert(g2.skip(1) =~= Seq::<(int, Seq<char>)>::empty());
        assert(gathered_values::<T>(g2.skip(1), list));
        assert(T::from_url_rel(decode_url_chars(g2[0].1), Option::None));
        assert(gathered_values::<T>(g2, list));
    } else {
        assert(g2[0] == groups[0]);
        assert(g2.skip(1) =~= groups.skip(1).push(g));
        if list.len() > 0 && T::from_url_rel(decode_url_chars(groups[0].1), Some(list[0]))
            && gathered_values::<T>(groups.skip(1), list.skip(1)) {
            lemma_gathered_snoc_none::<T>(groups.skip(1), list.skip(1), g);
            assert(gathered_values::<T>(g2.skip(1), list.skip(1)));
            assert(list.len() > 0 && T::from_url_rel(decode_url_chars(g2[0].1), Some(list[0])));
            assert(gathered_values::<T>(g2, list));
        } else {
            assert(T::from_url_rel(decode_url_chars(groups[0].1), Option::None)
                && gathered_values::<T>(groups.skip(1), list));
            lemma_gathered_snoc_none::<T>(groups.skip(1), list, g);
            assert(gathered_values::<T>(g2.skip(1), list));
            assert(T::from_url_rel(decode_url_chars(g2[0].1), Option::None));
            assert(gathered_values::<T>(g2, list));
        }
    }
}

/// Ascending group indices.
pub open spec fn groups_sorted(g: Seq<(int, Seq<char>)>) -> bool {
    forall|i: int, j: int| 0 <= i < j < g.len() ==> (#[trigger] g[i]).0 < (#[trigger] g[j]).0
}

/// `grp_upsert` lands where the first not-smaller index sits.
proof fn lemma_grp_upsert_at(
    g: Seq<(int, Seq<char>)>,
    ix: int,
    piece: Seq<char>,
    append: bool,
    pos: int,
)
    requires
        0 <= pos <= g.len(),
        forall|j: int| 0 <= j < pos ==> (#[trigger] g[j]).0 < ix,
        pos < g.len() ==> g[pos as int].0 >= ix,
    ensures
        grp_upsert(g, ix, piece, append) == (if pos < g.len() && g[pos].0 == ix {
            g.take(pos) + seq![
                (ix, if append {
                    g[pos].1 + seq!['&'] + piece
                } else {
                    piece
                }),
            ] + g.skip(pos + 1)
        } else {
            g.take(pos) + seq![(ix, piece)] + g.skip(pos)
        }),
    decreases pos,
{
    if pos == 0 {
        if g.len() == 0 {
            assert(grp_upsert(g, ix, piece, append) =~= g.take(0) + seq![(ix, piece)] + g.skip(
                0,
            ));
        } else if g[0].0 == ix {
            assert(grp_upsert(g, ix, piece, append) =~= g.take(0) + seq![
                (ix, if append {
                    g[0].1 + seq!['&'] + piece
                } else {
                    piece
                }),
            ] + g.skip(1));
        } else {
            assert(ix < g[0].0);
            assert(grp_upsert(g, ix, piece, append) =~= g.take(0) + seq![(ix, piece)] + g.skip(
                0,
            ));
        }
    } else {
        assert(g[0].0 < ix);
        let tl = g.skip(1);
        assert(forall|j: int| 0 <= j < pos - 1 ==> (#[trigger] tl[j]).0 < ix) by {
            assert(forall|j: int| 0 <= j < g.len() - 1 ==> #[trigger] tl[j] == g[j + 1]);
        }
        assert(pos - 1 < tl.len() ==> tl[pos - 1].0 >= ix) by {
            if pos - 1 < tl.len() {
                assert(tl[pos - 1] == g[pos]);
            }
        }
        lemma_grp_upsert_at(tl, ix, piece, append, pos - 1);
        if pos < g.len() && g[pos].0 == ix {
            assert(tl[pos - 1] == g[pos]);
            assert(tl.take(pos - 1) =~= g.take(pos).skip(1));
            assert(tl.skip(pos) =~= g.skip(pos + 1));
            assert(grp_upsert(g, ix, piece, append) =~= g.take(pos) + seq![
                (ix, if append {
                    g[pos].1 + seq!['&'] + piece
                } else {
                    piece
                }),
            ] + g.skip(pos + 1));
        } else {
            assert(tl.take(pos - 1) =~= g.take(pos).skip(1));
            assert(tl.skip(pos - 1) =~= g.skip(pos));
            assert(grp_upsert(g, ix, piece, append) =~= g.take(pos) + seq![(ix, piece)] + g.skip(
                pos,
            ));
        }
    }
}

proof fn lemma_grp_upsert_sorted(g: Seq<(int, Seq<char>)>, ix: int, piece: Seq<char>, append: bool)
    requires
        groups_sorted(g),
    ensures
        groups_sorted(grp_upsert(g, ix, piece, append)),
    decreases g.len(),
{
    let r = grp_upsert(g, ix, piece, append);
    if g.len() == 0 {
    } else if g[0].0 == ix {
        assert forall|i: int, j: int| 0 <= i < j < r.len() implies (#[trigger] r[i]).0 < (
        #[trigger] r[j]).0 by {
            if i > 0 {
                assert(r[i] == g[i]);
            }
            assert(r[j] == g[j]);
        }
    } else if ix < g[0].0 {
        assert forall|i: int, j: int| 0 <= i < j < r.len() implies (#[trigger] r[i]).0 < (
        #[trigger] r[j]).0 by {
            if i > 0 {
                assert(r[i] == g[i - 1]);
            }
            assert(r[j] == g[j - 1]);
        }
    } else {
        assert(groups_sorted(g.skip(1))) by {
            assert(forall|a: int| 0 <= a < g.len() - 1 ==> #[trigger] g.skip(1)[a] == g[a + 1]);
        }
        lemma_grp_upsert_sorted(g.skip(1), ix, piece, append);
        lemma_grp_upsert_keys(g.skip(1), ix, piece, append);
        let rest = grp_upsert(g.skip(1), ix, piece, append);
        assert forall|i: int, j: int| 0 <= i < j < r.len() implies (#[trigger] r[i]).0 < (
        #[trigger] r[j]).0 by {
            if i == 0 {
                assert(r[j] == rest[j - 1]);
                if rest[j - 1].0 == ix {
                } else {
                    let a = choose|a: int|
                        0 <= a < g.skip(1).len() && (#[trigger] g.skip(1)[a]).0 == rest[j - 1].0;
                    assert(g.skip(1)[a] == g[a + 1]);
                }
            } else {
                assert(r[i] == rest[i - 1]);
                assert(r[j] == rest[j - 1]);
            }
        }
    }
}

/// Every index of an updated group list is `ix` or one already present.
proof fn lemma_grp_upsert_keys(g: Seq<(int, Seq<char>)>, ix: int, piece: Seq<char>, append: bool)
    ensures
        forall|i: int|
            0 <= i < grp_upsert(g, ix, piece, append).len() ==> (#[trigger] grp_upsert(
                g,
                ix,
                piece,
                append,
            )[i]).0 == ix || exists|a: int|
                0 <= a < g.len() && (#[trigger] g[a]).0 == grp_upsert(g, ix, piece, append)[i].0,
    decreases g.len(),
{
    let r = grp_upsert(g, ix, piece, append);
    if g.len() == 0 {
    } else if g[0].0 == ix {
        assert forall|i: int| 0 <= i < r.len() implies (#[trigger] r[i]).0 == ix || exists|a: int|
            0 <= a < g.len() && (#[trigger] g[a]).0 == r[i].0 by {
            if i > 0 {
                assert(g[i].0 == r[i].0);
            }
        }
    } else if ix < g[0].0 {
        assert forall|i: int| 0 <= i < r.len() implies (#[trigger] r[i]).0 == ix || exists|a: int|
            0 <= a < g.len() && (#[trigger] g[a]).0 == r[i].0 by {
            if i > 0 {
                assert(g[i - 1].0 == r[i].0);
            }
        }
    } else {
        lemma_grp_upsert_keys(g.skip(1), ix, piece, append);
        let rest = grp_upsert(g.skip(1), ix, piece, append);
        assert forall|i: int| 0 <= i < r.len() implies (#[trigger] r[i]).0 == ix || exists|a: int|
            0 <= a < g.len() && (#[trigger] g[a]).0 == r[i].0 by {
            if i == 0 {
                assert(g[0].0 == r[0].0);
            } else {
                assert(r[i] == rest[i - 1]);
                if rest[i - 1].0 != ix {
                    let a = choose|a: int|
                        0 <= a < g.skip(1).len() && (#[trigger] g.skip(1)[a]).0 == rest[i - 1].0;
                    assert(g[a + 1].0 == r[i].0);
                }
            }
        }
    }
}

impl UrlEncoded {
    /// Gathers the index-sorted groups nested under `key[`.
    fn gather_groups(&self, key: &str, with_subkey: bool) -> (r: Vec<(i32, String)>)
        requires
            self.wf(),
            vec_entries_ok(self.entries(), key@, with_subkey),
        ensures
            r@.map_values(|g: (i32, String)| (g.0 as int, g.1@)) == vec_groups(
                self.entries(),
                key@,
                Seq::empty(),
                with_subkey,
            ),
    {
        let kc = str_to_chars(key);
        let mut pref = kc;
        pref.push('[');
        proof {
            assert(pref@ =~= key@ + seq!['[']);
        }
        let ghost es = self.entries();
        let mut groups: Vec<(i32, String)> = Vec::new();
        let ghost gview = |g: (i32, String)| (g.0 as int, g.1@);
        let mut i: usize = 0;
        proof {
            assert(es.skip(0) =~= es);
            assert(groups@.map_values(gview) =~= Seq::<(int, Seq<char>)>::empty());
        }
        while i < self.values.len()
            invariant
                i <= self.values.len(),
                es == self.entries(),
                self.wf(),
                vec_entries_ok(es, key@, with_subkey),
                pref@ == key@ + seq!['['],
                gview == (|g: (i32, String)| (g.0 as int, g.1@)),
                groups_sorted(groups@.map_values(gview)),
                vec_groups(es, key@, Seq::empty(), with_subkey) == vec_groups(
                    es.skip(i as int),
                    key@,
                    groups@.map_values(gview),
                    with_subkey,
                ),
            decreases self.values.len() - i,
        {
            let ghost rem = es.skip(i as int);
            proof {
                assert(rem[0] == es[i as int]);
                assert(rem.skip(1) =~= es.skip(i + 1));
            }
            let entry_key = str_to_chars(self.values[i].0.as_str());
            if match_at(&entry_key, 0, &pref) {
                proof {
                    assert(entry_key@.subrange(0, pref@.len() as int) == pref@);
                    assert(is_prefix(key@ + seq!['['], rem[0].0));
                }
                let tail = crate::strutil::sub_chars(&entry_key, pref.len(), entry_key.len());
                proof {
                    assert(tail@ =~= rem[0].0.skip(key@.len() as int + 1));
                }
                let stripped = remove_first_exec(&tail, '[');
                let parts = split_chars(&stripped, ']');
                proof {
                    assert(parts@.map_values(|p: Vec<char>| p@) == vec_key_parts(rem[0], key@));
                    crate::strutil::lemma_spec_split_len(stripped@, ']');
                }
                let ix: i32 = match parse_i32_chars(&parts[0]) {
                    Some(x) => x,
                    None => {
                        proof {
                            assert(is_int_chars(vec_key_parts(rem[0], key@)[0]));
                            assert(false);
                        }
                        0
                    }
                };
                let piece: String = if with_subkey {
                    proof {
                        assert(vec_key_parts(rem[0], key@).len() >= 2);
                    }
                    let mut pc = parts[1].clone();
                    pc.push('=');
                    let vc = str_to_chars(self.values[i].1.as_str());
                    append_chars(&mut pc, &vc);
                    proof {
                        assert(pc@ =~= vec_key_parts(rem[0], key@)[1] + seq!['='] + rem[0].1);
                    }
                    chars_to_string(&pc)
                } else {
                    self.values[i].1.clone()
                };
                proof {
                    assert(piece@ == vec_entry_piece(rem[0], key@, with_subkey));
                    assert(ix as int == vec_entry_ix(rem[0], key@));
                }
                upsert_group(&mut groups, ix, piece, with_subkey);
                proof {
                    assert(vec_groups(es, key@, Seq::empty(), with_subkey) =~= vec_groups(
                        es.skip(i + 1),
                        key@,
                        groups@.map_values(gview),
                        with_subkey,
                    ));
                }
            } else {
                proof {
                    assert(!is_prefix(key@ + seq!['['], rem[0].0));
                    assert(vec_groups(rem, key@, groups@.map_values(gview), with_subkey)
                        == vec_groups(rem.skip(1), key@, groups@.map_values(gview), with_subkey));
                }
            }
            i = i + 1;
        }
        proof {
            assert(es.skip(i as int) =~= Seq::<(Seq<char>, Seq<char>)>::empty());
            assert(vec_groups(
                Seq::<(Seq<char>, Seq<char>)>::empty(),
                key@,
                groups@.map_values(gview),
                with_subkey,
            ) == groups@.map_values(gview));
        }
        groups
    }

    /// Decides the precondition of the indexed retrievals: every entry
    /// nested under `key[` must name a well-formed array index and, when
    /// a payload is needed, carry text after its closing bracket.  Wire
    /// data that fails this check would have made the index parse give
    /// up, so callers holding untrusted form data test here first.
    pub fn check_vec_entries(&self, key: &str, need_payload: bool) -> (r: bool)
        requires
            self.wf(),
        ensures
            r == vec_entries_ok(self.entries(), key@, need_payload),
    {
        let kc = str_to_chars(key);
        let mut pref = kc;
        pref.push('[');
        proof {
            assert(pref@ =~= key@ + seq!['[']);
        }
        let ghost es = self.entries();
        let mut i: usize = 0;
        while i < self.values.len()
            invariant
                i <= self.values.len(),
                es == self.entries(),
                self.wf(),
                pref@ == key@ + seq!['['],
                forall|j: int|
                    0 <= j < i && is_prefix(key@ + seq!['['], (#[trigger] es[j]).0) ==> {
                        let parts = vec_key_parts(es[j], key@);
                        is_int_chars(parts[0]) && i32::MIN <= int_chars_val(parts[0])
                            <= i32::MAX && (need_payload ==> parts.len() >= 2)
                    },
            decreases self.values.len() - i,
        {
            proof {
                assert(es[i as int] == (self.values@[i as int].0@, self.values@[i as int].1@));
            }
            let entry_key = str_to_chars(self.values[i].0.as_str());
            if match_at(&entry_key, 0, &pref) {
                proof {
                    assert(entry_key@.subrange(0, pref@.len() as int) == pref@);
                    assert(is_prefix(key@ + seq!['['], es[i as int].0));
                }
                let tail = crate::strutil::sub_chars(&entry_key, pref.len(), entry_key.len());
                proof {
                    assert(tail@ =~= es[i as int].0.skip(key@.len() as int + 1));
                }
                let stripped = remove_first_exec(&tail, '[');
                let parts = split_chars(&stripped, ']');
                proof {
                    assert(parts@.map_values(|p: Vec<char>| p@) == vec_key_parts(
                        es[i as int],
                        key@,
                    ));
                    crate::strutil::lemma_spec_split_len(stripped@, ']');
                }
                let index_ok = parse_i32_chars(&parts[0]).is_some();
                let payload_ok = !need_payload || parts.len() >= 2;
                if !index_ok || !payload_ok {
                    proof {
                        let bad = vec_key_parts(es[i as int], key@);
                        assert(parts@[0]@ == bad[0]);
                        assert(!(is_int_chars(bad[0]) && i32::MIN <= int_chars_val(bad[0])
                            <= i32::MAX && (need_payload ==> bad.len() >= 2)));
                        assert(!vec_entries_ok(es, key@, need_payload));
                    }
                    return false;
                }
                proof {
                    assert(parts@[0]@ == vec_key_parts(es[i as int], key@)[0]);
                }
            } else {
                proof {
                    assert(!is_prefix(key@ + seq!['['], es[i as int].0));
                }
            }
            i = i + 1;
        }
        true
    }

    /// Rebuilds an array of dictionaries nested under `key[index][...]`:
    /// each index's pieces are re-encoded together, ascending by index.
    pub fn get_vec_dict(&self, key: &str) -> (r: Option<Vec<UrlEncoded>>)
        requires
            self.wf(),
            vec_entries_ok(self.entries(), key@, true),
        ensures
            r matches Some(list) && {
                let groups = vec_groups(self.entries(), key@, Seq::empty(), true);
                list@.len() == groups.len() && (forall|i: int|
                    0 <= i < groups.len() ==> (#[trigger] list@[i]).wf() && list@[i]@ == ue_map(
                        groups[i].1,
                    ))
            },
    {
        let groups = self.gather_groups(key, true);
        let ghost gs = vec_groups(self.entries(), key@, Seq::empty(), true);
        let mut out: Vec<UrlEncoded> = Vec::new();
        let mut i: usize = 0;
        while i < groups.len()
            invariant
                i <= groups.len(),
                groups@.map_values(|g: (i32, String)| (g.0 as int, g.1@)) == gs,
                out@.len() == i,
                forall|j: int|
                    0 <= j < i ==> (#[trigger] out@[j]).wf() && out@[j]@ == ue_map(gs[j].1),
            decreases groups.len() - i,
        {
            let u = UrlEncoded::from_string(groups[i].1.clone());
            proof {
                assert(gs[i as int].1 == groups@[i as int].1@);
            }
            out.push(u);
            i = i + 1;
        }
        Some(out)
    }

    /// Retrieves an array of primitive values nested under `key[index]`,
    /// ascending by index; a later entry for the same index replaces an
    /// earlier one, and values that fail to convert are dropped.
    pub fn get_vec<T: FromUrlEncoded>(&self, key: &str) -> (r: Option<Vec<T>>)
        requires
            self.wf(),
            vec_entries_ok(self.entries(), key@, false),
        ensures
            r matches Some(list) && gathered_values::<T>(
                vec_groups(self.entries(), key@, Seq::empty(), false),
                list@,
            ),
    {
        let groups = self.gather_groups(key, false);
        let ghost gs = vec_groups(self.entries(), key@, Seq::empty(), false);
        let mut out: Vec<T> = Vec::new();
        let mut i: usize = 0;
        proof {
            assert(gs.take(0) =~= Seq::<(int, Seq<char>)>::empty());
            assert(gathered_values::<T>(gs.take(0), out@));
        }
        while i < groups.len()
            invariant
                i <= groups.len(),
                groups@.map_values(|g: (i32, String)| (g.0 as int, g.1@)) == gs,
                gathered_values::<T>(gs.take(i as int), out@),
            decreases groups.len() - i,
        {
            let cs = str_to_chars(groups[i].1.as_str());
            let dec = decode_url_exec(&cs);
            let ds = chars_to_string(&dec);
            proof {
                assert(gs[i as int].1 == groups@[i as int].1@);
                assert(gs.take(i + 1) =~= gs.take(i as int).push(gs[i as int]));
            }
            let pr = T::from_url_encoded(ds.as_str());
            let ghost prg = pr;
            match pr {
                Some(v) => {
                    let ghost prev_out = out@;
                    out.push(v);
                    proof {
                        let vv = prg->0;
                        assert(T::from_url_rel(decode_url_chars(gs[i as int].1), Some(vv)));
                        lemma_gathered_snoc_some::<T>(
                            gs.take(i as int),
                            prev_out,
                            gs[i as int],
                            vv,
                        );
                        assert(out@ =~= prev_out.push(vv));
                    }
                }
                None => {
                    proof {
                        assert(T::from_url_rel(decode_url_chars(gs[i as int].1), Option::None));
                        lemma_gathered_snoc_none::<T>(gs.take(i as int), out@, gs[i as int]);
                    }
                }
            }
            i = i + 1;
        }
        proof {
            assert(gs.take(i as int) =~= gs);
        }
        Some(out)
    }
}

/// Inserts a piece into its index's group, keeping the list sorted by
/// index; an existing group grows by `&` when appending, or is replaced.
fn upsert_group(groups: &mut Vec<(i32, String)>, ix: i32, piece: String, append: bool)
    requires
        groups_sorted(old(groups)@.map_values(|g: (i32, String)| (g.0 as int, g.1@))),
    ensures
        final(groups)@.map_values(|g: (i32, String)| (g.0 as int, g.1@)) == grp_upsert(
            old(groups)@.map_values(|g: (i32, String)| (g.0 as int, g.1@)),
            ix as int,
            piece@,
            append,
        ),
        groups_sorted(final(groups)@.map_values(|g: (i32, String)| (g.0 as int, g.1@))),
{
    let ghost gview = |g: (i32, String)| (g.0 as int, g.1@);
    let ghost gs = groups@.map_values(gview);
    let ghost piecev = piece@;
    let mut i: usize = 0;
    loop
        invariant
            i <= groups.len(),
            gs == groups@.map_values(gview),
            gview == (|g: (i32, String)| (g.0 as int, g.1@)),
            piecev == piece@,
            groups == old(groups),
            groups_sorted(gs),
            forall|j: int| 0 <= j < i ==> (#[trigger] gs[j]).0 < ix as int,
        decreases groups.len() - i,
    {
        if i >= groups.len() {
            proof {
                lemma_grp_upsert_at(gs, ix as int, piecev, append, i as int);
            }
            groups.push((ix, piece));
            proof {
                assert(groups@.map_values(gview) =~= gs.take(gs.len() as int) + seq![
                    (ix as int, piecev),
                ] + gs.skip(gs.len() as int));
                lemma_grp_upsert_sorted(gs, ix as int, piecev, append);
            }
            return ;
        }
        let cur = groups[i].0;
        if cur == ix {
            proof {
                lemma_grp_upsert_at(gs, ix as int, piecev, append, i as int);
            }
            if append {
                let mut merged = str_to_chars(groups[i].1.as_str());
                merged.push('&');
                let pc = str_to_chars(piece.as_str());
                append_chars(&mut merged, &pc);
                proof {
                    assert(merged@ =~= gs[i as int].1 + seq!['&'] + piecev);
                }
                let ms = chars_to_string(&merged);
                groups[i] = (ix, ms);
                proof {
                    assert(groups@.map_values(gview) =~= gs.take(i as int) + seq![
                        (ix as int, gs[i as int].1 + seq!['&'] + piecev),
                    ] + gs.skip(i + 1));
                    lemma_grp_upsert_sorted(gs, ix as int, piecev, append);
                }
            } else {
                groups[i] = (ix, piece);
                proof {
                    assert(groups@.map_values(gview) =~= gs.take(i as int) + seq![
                        (ix as int, piecev),
                    ] + gs.skip(i + 1));
                    lemma_grp_upsert_sorted(gs, ix as int, piecev, append);
                }
            }
            return ;
        } else if cur > ix {
            proof {
                assert(gs[i as int].0 > ix as int);
                lemma_grp_upsert_at(gs, ix as int, piecev, append, i as int);
            }
            groups.insert(i, (ix, piece));
            proof {
                assert(groups@.map_values(gview) =~= gs.take(i as int) + seq![(ix as int, piecev)]
                    + gs.skip(i as int));
                lemma_grp_upsert_sorted(gs, ix as int, piecev, append);
            }
            return ;
        } else {
            proof {
                assert(gs[i as int].0 < ix as int);
            }
            i = i + 1;
        }
    }
}

/// Typed conversion from a form-decoded string value.  `from_url_rel`
/// relates the decoded text to the outcome.
pub trait FromUrlEncoded: Sized {
    /// How an outcome relates to the decoded text it was read from.
    spec fn from_url_rel(data: Seq<char>, r: Option<Self>) -> bool;

    /// Attempts to parse `data`, returning `None` on failure.
    fn from_url_encoded(data: &str) -> (r: Option<Self>)
        ensures
            Self::from_url_rel(data@, r),
    ;
}

impl FromUrlEncoded for String {
    open spec fn from_url_rel(data: Seq<char>, r: Option<Self>) -> bool {
        r matches Some(s) && s@ == data
    }

    fn from_url_encoded(data: &str) -> (r: Option<Self>) {
        Some(data.to_owned())
    }
}

impl FromUrlEncoded for i32 {
    open spec fn from_url_rel(data: Seq<char>, r: Option<Self>) -> bool {
        if is_int_chars(data) && i32::MIN <= int_chars_val(data) <= i32::MAX {
            r matches Some(x) && x as int == int_chars_val(data)
        } else {
            r is None
        }
    }

    fn from_url_encoded(data: &str) -> (r: Option<Self>) {
        let cs = str_to_chars(data);
        parse_i32_chars(&cs)
    }
}

} // verus!
