use vstd::prelude::*;
use vstd::string::{StrSliceExecFns, StringExecFns};
use crate::assoc::{find_key, first_at, found_at, lemma_lookup_at, lemma_lookup_absent, lemma_lookup_push, lemma_lookup_update, lookup};
use crate::choice::{landing, lemma_unit_weighted_sum, unit_weight, Bias, ChoiceKey, ChoiceMap, count_of, lemma_weighted_sum_bound, sum_of, weigh, weighted_sum_of};
use crate::text::{lemma_split_join, lemma_split_pieces, no_space, has_prefix, is_valid_end, valid_end, join_spaces, lemma_split_char_len, pieces_len, split_at_char, split_char, lemma_split_len, lower_of, lowercase, split_spaces, split_words};

verus! {

/// A reply start: the first word of a message, and the lower-cased
/// second-to-last word of the message before it, if that had one.
#[derive(Debug)]
pub struct Start {
    pub word: String,
    pub prev: Option<String>,
}

pub open spec fn opt_view(o: Option<String>) -> Option<Seq<char>> {
    match o {
        Some(s) => Some(s@),
        None => None,
    }
}

impl View for Start {
    type V = (Seq<char>, Option<Seq<char>>);

    open spec fn view(&self) -> (Seq<char>, Option<Seq<char>>) {
        (self.word@, opt_view(self.prev))
    }
}

impl ChoiceKey for Start {
    fn same(&self, other: &Self) -> (r: bool) {
        if !(self.word == other.word) {
            return false;
        }
        match (&self.prev, &other.prev) {
            (Some(a), Some(b)) => *a == *b,
            (None, None) => true,
            _ => false,
        }
    }
}

/// Weighs four times the starts recorded after the given second-to-last word.
#[derive(Debug)]
pub struct PreferPrev {
    pub word: String,
}

impl Bias<Start> for PreferPrev {
    open spec fn weight_of(&self, k: (Seq<char>, Option<Seq<char>>)) -> nat {
        if k.1 == Some(self.word@) {
            4
        } else {
            1
        }
    }

    fn weight(&self, k: &Start) -> (r: usize) {
        match &k.prev {
            Some(p) => if *p == self.word {
                4
            } else {
                1
            },
            None => 1,
        }
    }

    proof fn lemma_weight_positive(&self, k: (Seq<char>, Option<Seq<char>>)) {
    }
}

/// The bound on the number of words the model may take in, so that every
/// count, and four times every count, fits in a `usize`.
pub const VOLUME_LIMIT: usize = usize::MAX / 4;

/// The view of a keyed list of tables.
pub open spec fn tables_view<T: View>(s: Seq<(String, ChoiceMap<T>)>) -> Seq<(Seq<char>, Seq<(T::V, nat)>)> {
    s.map_values(|e: (String, ChoiceMap<T>)| (e.0@, e.1@))
}

/// The count of `b` in the table of `a`; zero where there is none.
pub open spec fn count_in<V>(s: Seq<(Seq<char>, Seq<(V, nat)>)>, a: Seq<char>, b: V) -> nat {
    match lookup(s, a) {
        Some(t) => count_of(t, b),
        None => 0,
    }
}

/// The total of the table of `a`; zero where there is none.
pub open spec fn total_in<V>(s: Seq<(Seq<char>, Seq<(V, nat)>)>, a: Seq<char>) -> nat {
    match lookup(s, a) {
        Some(t) => sum_of(t),
        None => 0,
    }
}

/// Every table is well formed, not empty, and holds at most `bound`.
pub closed spec fn tables_ok<T: ChoiceKey>(s: Seq<(String, ChoiceMap<T>)>, bound: nat) -> bool {
    forall|i: int|
        0 <= i < s.len() ==> (#[trigger] s[i]).1.wf() && 1 <= sum_of(s[i].1@) <= bound
}

proof fn lemma_tables_ok_weaken<T: ChoiceKey>(s: Seq<(String, ChoiceMap<T>)>, b1: nat, b2: nat)
    requires
        tables_ok(s, b1),
        b1 <= b2,
    ensures
        tables_ok(s, b2),
{
}

proof fn lemma_table_found<T: View>(v: Seq<(String, ChoiceMap<T>)>, k: Seq<char>, i: int)
    requires
        found_at(v, k, i),
    ensures
        first_at(tables_view(v), k, i),
        lookup(tables_view(v), k) == Some(v[i].1@),
{
    let s = tables_view(v);
    assert forall|j: int| 0 <= j < i implies s[j].0 != k by {
        assert(s[j].0 == v[j].0@);
    }
    lemma_lookup_at(s, k, i);
}

proof fn lemma_table_missing<T: View>(v: Seq<(String, ChoiceMap<T>)>, k: Seq<char>)
    requires
        forall|j: int| 0 <= j < v.len() ==> #[trigger] v[j].0@ != k,
    ensures
        forall|j: int| 0 <= j < v.len() ==> tables_view(v)[j].0 != k,
        lookup(tables_view(v), k) is None,
{
    let s = tables_view(v);
    assert forall|j: int| 0 <= j < s.len() implies s[j].0 != k by {
        assert(s[j].0 == v[j].0@);
    }
    lemma_lookup_absent(s, k);
}

proof fn lemma_channel_found(v: Seq<(String, String)>, k: Seq<char>, i: int)
    requires
        found_at(v, k, i),
    ensures
        first_at(channels_of(v), k, i),
        lookup(channels_of(v), k) == Some(v[i].1@),
{
    let s = channels_of(v);
    assert forall|j: int| 0 <= j < i implies s[j].0 != k by {
        assert(s[j].0 == v[j].0@);
    }
    lemma_lookup_at(s, k, i);
}

proof fn lemma_channel_missing(v: Seq<(String, String)>, k: Seq<char>)
    requires
        forall|j: int| 0 <= j < v.len() ==> #[trigger] v[j].0@ != k,
    ensures
        forall|j: int| 0 <= j < v.len() ==> channels_of(v)[j].0 != k,
        lookup(channels_of(v), k) is None,
{
    let s = channels_of(v);
    assert forall|j: int| 0 <= j < s.len() implies s[j].0 != k by {
        assert(s[j].0 == v[j].0@);
    }
    lemma_lookup_absent(s, k);
}

/// Adds one to the count of `val` in the table of `key`, making the table
/// where there is none.
fn bump<T: ChoiceKey>(v: &mut Vec<(String, ChoiceMap<T>)>, key: String, val: T, Ghost(bound): Ghost<nat>)
    requires
        tables_ok(old(v)@, bound),
        bound < usize::MAX,
    ensures
        tables_ok(final(v)@, bound + 1),
        forall|a: Seq<char>, b: T::V| #[trigger]
            count_in(tables_view(final(v)@), a, b) == count_in(tables_view(old(v)@), a, b) + (if a
                == key@ && b == val@ {
                1nat
            } else {
                0
            }),
        forall|a: Seq<char>|
            #[trigger] lookup(tables_view(final(v)@), a) is Some <==> (a == key@ || lookup(
                tables_view(old(v)@),
                a,
            ) is Some),
        forall|a: Seq<char>| #[trigger]
            total_in(tables_view(final(v)@), a) == total_in(tables_view(old(v)@), a) + (if a
                == key@ {
                1nat
            } else {
                0
            }),
{
    let ghost s = tables_view(v@);
    let ghost k = key@;
    let ghost x = val@;
    assert(v@.map_values(|e: (String, ChoiceMap<T>)| (e.0@, e.1)).len() == v@.len());
    match find_key(v, &key) {
        Some(i) => {
            proof {
                lemma_table_found(v@, k, i as int);
            }
            let ghost old_t = v@[i as int].1@;
            v[i].1.insert(val);
            let ghost new_t = v@[i as int].1@;
            assert(tables_view(v@) =~= s.update(i as int, (k, new_t)));
            proof {
                assert forall|a: Seq<char>, b: T::V| #[trigger]
                    count_in(tables_view(v@), a, b) == count_in(s, a, b) + (if a == k && b == x {
                        1nat
                    } else {
                        0
                    }) by {
                    lemma_lookup_update(s, k, i as int, new_t, a);
                }
                assert forall|a: Seq<char>| #[trigger] lookup(tables_view(v@), a) is Some <==> (a == k || lookup(s, a) is Some) by {
                    lemma_lookup_update(s, k, i as int, new_t, a);
                }
                assert forall|a: Seq<char>| #[trigger] total_in(tables_view(v@), a) == total_in(s, a) + (if a == k {
                    1nat
                } else {
                    0
                }) by {
                    lemma_lookup_update(s, k, i as int, new_t, a);
                }
            }
        },
        None => {
            let mut m = ChoiceMap::new();
            proof {
                assert(sum_of(m@) == 0);
            }
            m.insert(val);
            let ghost new_t = m@;
            v.push((key, m));
            proof {
                lemma_table_missing(old(v)@, k);
                assert(tables_view(v@) =~= s.push((k, new_t)));
                assert forall|a: Seq<char>, b: T::V| #[trigger]
                    count_in(tables_view(v@), a, b) == count_in(s, a, b) + (if a == k && b == x {
                        1nat
                    } else {
                        0
                    }) by {
                    lemma_lookup_push(s, k, new_t, a);
                    lemma_lookup_absent(s, k);
                    assert(count_of(new_t, b) == count_of(Seq::<(T::V, nat)>::empty(), b) + (if b == x { 1nat } else { 0 }));
                }
                assert forall|a: Seq<char>| #[trigger] lookup(tables_view(v@), a) is Some <==> (a == k || lookup(s, a) is Some) by {
                    lemma_lookup_push(s, k, new_t, a);
                }
                assert forall|a: Seq<char>| #[trigger] total_in(tables_view(v@), a) == total_in(s, a) + (if a == k {
                    1nat
                } else {
                    0
                }) by {
                    lemma_lookup_push(s, k, new_t, a);
                    lemma_lookup_absent(s, k);
                }
            }
        },
    }
}

/// The number of places where a word that lower-cases to `a` is followed by
/// the word `b` in `t`.
pub open spec fn pair_count(t: Seq<Seq<char>>, a: Seq<char>, b: Seq<char>) -> nat
    decreases t.len(),
{
    if t.len() < 2 {
        0
    } else {
        pair_count(t.drop_last(), a, b) + (if lower_of(t[t.len() - 2]) == a && t.last() == b {
            1nat
        } else {
            0
        })
    }
}

/// The number of places where a word that lower-cases to `a` is followed by
/// some word in `t`.
pub open spec fn pairs_from(t: Seq<Seq<char>>, a: Seq<char>) -> nat
    decreases t.len(),
{
    if t.len() < 2 {
        0
    } else {
        pairs_from(t.drop_last(), a) + (if lower_of(t[t.len() - 2]) == a {
            1nat
        } else {
            0
        })
    }
}

/// A counted pair names a word of `t`.
proof fn lemma_pair_count_piece(t: Seq<Seq<char>>, a: Seq<char>, b: Seq<char>)
    requires
        pair_count(t, a, b) > 0,
    ensures
        exists|k: int| 0 <= k < t.len() && t[k] == b,
    decreases t.len(),
{
    if !(lower_of(t[t.len() - 2]) == a && t.last() == b) {
        lemma_pair_count_piece(t.drop_last(), a, b);
        let k = choose|k: int| 0 <= k < t.drop_last().len() && t.drop_last()[k] == b;
        assert(t[k] == b);
    } else {
        assert(t[t.len() - 1] == b);
    }
}

/// The key under which a message's successor start is recorded: its last
/// word, lower-cased.
pub open spec fn start_key(prev: Seq<char>) -> Seq<char> {
    lower_of(split_spaces(prev).last())
}

/// A message's second-to-last word, lower-cased, if it has one.
pub open spec fn start_prev(prev: Seq<char>) -> Option<Seq<char>> {
    let p = split_spaces(prev);
    if p.len() >= 2 {
        Some(lower_of(p[p.len() - 2]))
    } else {
        None
    }
}

pub open spec fn channels_of(s: Seq<(String, String)>) -> Seq<(Seq<char>, Seq<char>)> {
    s.map_values(|e: (String, String)| (e.0@, e.1@))
}

pub open spec fn words_of(ws: Seq<String>) -> Seq<Seq<char>> {
    ws.map_values(|w: String| w@)
}

/// `ws` joined with single spaces.
fn join_words(ws: &Vec<String>) -> (r: String)
    requires
        ws@.len() >= 1,
    ensures
        r@ == join_spaces(words_of(ws@)),
{
    let ghost v = words_of(ws@);
    let mut r = ws[0].clone();
    proof {
        reveal_strlit(" ");
        assert(v.subrange(0, 1).len() == 1);
    }
    let mut i: usize = 1;
    while i < ws.len()
        invariant
            v == words_of(ws@),
            1 <= i <= ws@.len(),
            r@ == join_spaces(v.subrange(0, i as int)),
        decreases ws@.len() - i,
    {
        r.append(" ");
        r.append(ws[i].as_str());
        proof {
            reveal_strlit(" ");
            let u = v.subrange(0, i + 1);
            assert(u.drop_last() =~= v.subrange(0, i as int));
            assert(u.last() == ws@[i as int]@);
            assert(" "@ =~= seq![' ']);
        }
        i = i + 1;
    }
    assert(v.subrange(0, ws@.len() as int) =~= v);
    r
}

/// A chain model of replies trained on messages from many channels.
#[derive(Debug)]
pub struct Pizzabot {
    first_words: Vec<(String, ChoiceMap<Start>)>,
    words: Vec<(String, ChoiceMap<String>)>,
    lengths: ChoiceMap<usize>,
    last_message: Vec<(String, String)>,
    volume: usize,
}

impl Pizzabot {
    /// Per last word of a message, the starts recorded for the next message.
    pub closed spec fn starts_view(&self) -> Seq<(Seq<char>, Seq<((Seq<char>, Option<Seq<char>>), nat)>)> {
        tables_view(self.first_words@)
    }

    /// Per lower-cased word, the words seen right after it.
    pub closed spec fn words_view(&self) -> Seq<(Seq<char>, Seq<(Seq<char>, nat)>)> {
        tables_view(self.words@)
    }

    /// The word counts of the messages trained on.
    pub closed spec fn lengths_view(&self) -> Seq<(usize, nat)> {
        self.lengths@
    }

    /// Per channel, the last message.
    pub closed spec fn channels_view(&self) -> Seq<(Seq<char>, Seq<char>)> {
        channels_of(self.last_message@)
    }

    /// How many words the model has taken in.
    pub closed spec fn volume_spec(&self) -> nat {
        self.volume as nat
    }

    pub closed spec fn wf(&self) -> bool {
        &&& tables_ok(self.first_words@, self.volume as nat)
        &&& tables_ok(self.words@, self.volume as nat)
        &&& self.lengths.wf()
        &&& sum_of(self.lengths@) <= self.volume
        &&& self.volume <= VOLUME_LIMIT
        &&& forall|a: Seq<char>, b: Seq<char>| #[trigger] self.transitions(a, b) >= 1 ==> no_space(b)
        &&& forall|a: Seq<char>, st: (Seq<char>, Option<Seq<char>>)| #[trigger]
            self.start_count(a, st) >= 1 ==> no_space(st.0)
    }

    pub open spec fn last_message(&self, c: Seq<char>) -> Option<Seq<char>> {
        lookup(self.channels_view(), c)
    }

    /// How often a word lower-casing to `a` was followed by `b`.
    pub open spec fn transitions(&self, a: Seq<char>, b: Seq<char>) -> nat {
        count_in(self.words_view(), a, b)
    }

    /// How often `st` started a message after one whose last word lower-cases to `a`.
    pub open spec fn start_count(&self, a: Seq<char>, st: (Seq<char>, Option<Seq<char>>)) -> nat {
        count_in(self.starts_view(), a, st)
    }

    pub open spec fn start_total(&self, a: Seq<char>) -> nat {
        total_in(self.starts_view(), a)
    }

    /// How many trained messages had `n` words.
    pub open spec fn length_count(&self, n: usize) -> nat {
        count_of(self.lengths_view(), n)
    }

    pub open spec fn length_total(&self) -> nat {
        sum_of(self.lengths_view())
    }

    /// The tables, leaving out the per-channel context.
    pub open spec fn tables(&self) -> (
        Seq<(Seq<char>, Seq<((Seq<char>, Option<Seq<char>>), nat)>)>,
        Seq<(Seq<char>, Seq<(Seq<char>, nat)>)>,
        Seq<(usize, nat)>,
    ) {
        (self.starts_view(), self.words_view(), self.lengths_view())
    }

    /// `after` is `before` with `message` stored as the context of `channel`.
    pub open spec fn primed(before: Pizzabot, after: Pizzabot, channel: Seq<char>, message: Seq<char>) -> bool {
        &&& forall|c: Seq<char>| #[trigger]
            after.last_message(c) == (if c == channel {
                Some(message)
            } else {
                before.last_message(c)
            })
        &&& after.tables() == before.tables()
        &&& after.volume_spec() == before.volume_spec()
    }

    /// `after` is `before` trained on `message` from `channel`.
    pub open spec fn recorded(before: Pizzabot, after: Pizzabot, channel: Seq<char>, message: Seq<char>) -> bool {
        if message.len() == 0 {
            after == before
        } else {
            let t = split_spaces(message);
            &&& forall|c: Seq<char>| #[trigger]
                after.last_message(c) == (if c == channel {
                    Some(message)
                } else {
                    before.last_message(c)
                })
            &&& forall|n: usize| #[trigger]
                after.length_count(n) == before.length_count(n) + (if n as nat == t.len() {
                    1nat
                } else {
                    0
                })
            &&& forall|a: Seq<char>, st: (Seq<char>, Option<Seq<char>>)| #[trigger]
                after.start_count(a, st) == before.start_count(a, st) + (match before.last_message(
                    channel,
                ) {
                    Some(p) => if a == start_key(p) && st == (t[0], start_prev(p)) {
                        1nat
                    } else {
                        0
                    },
                    None => 0,
                })
            &&& forall|a: Seq<char>, b: Seq<char>| #[trigger]
                after.transitions(a, b) == before.transitions(a, b) + pair_count(t, a, b)
            &&& forall|a: Seq<char>| #[trigger]
                after.word_total(a) == before.word_total(a) + pairs_from(t, a)
            &&& forall|a: Seq<char>| #[trigger]
                after.start_total(a) == before.start_total(a) + (match before.last_message(
                    channel,
                ) {
                    Some(p) => if a == start_key(p) {
                        1nat
                    } else {
                        0
                    },
                    None => 0,
                })
            &&& after.length_total() == before.length_total() + 1
            &&& after.volume_spec() == before.volume_spec() + t.len()
        }
    }

    /// Whether the model can take in `message` without a count outgrowing
    /// its bound.
    pub open spec fn has_room(&self, message: Seq<char>) -> bool {
        self.volume_spec() + message.len() + 1 <= VOLUME_LIMIT
    }

    #[must_use]
    pub fn new() -> (r: Self)
        ensures
            r.wf(),
            r.volume_spec() == 0,
            r.length_total() == 0,
            forall|a: Seq<char>| #[trigger] r.start_total(a) == 0,
            forall|a: Seq<char>| #[trigger] r.word_total(a) == 0,
            forall|a: Seq<char>, b: Seq<char>| #[trigger] r.transitions(a, b) == 0,
            forall|a: Seq<char>, st: (Seq<char>, Option<Seq<char>>)| #[trigger] r.start_count(a, st) == 0,
            forall|n: usize| #[trigger] r.length_count(n) == 0,
            forall|c: Seq<char>| #[trigger] r.last_message(c) is None,
    {
        let r = Pizzabot {
            first_words: Vec::new(),
            words: Vec::new(),
            lengths: ChoiceMap::new(),
            last_message: Vec::new(),
            volume: 0,
        };
        proof {
            assert forall|a: Seq<char>| #[trigger] r.start_total(a) == 0 by {
                lemma_lookup_absent(r.starts_view(), a);
            }
            assert forall|a: Seq<char>| #[trigger] r.word_total(a) == 0 by {
                lemma_lookup_absent(r.words_view(), a);
            }
            assert forall|a: Seq<char>, b: Seq<char>| #[trigger] r.transitions(a, b) == 0 by {
                lemma_lookup_absent(r.words_view(), a);
            }
            assert forall|a: Seq<char>, st: (Seq<char>, Option<Seq<char>>)| #[trigger] r.start_count(a, st) == 0 by {
                lemma_lookup_absent(r.starts_view(), a);
            }
            assert forall|c: Seq<char>| #[trigger] r.last_message(c) is None by {
                lemma_lookup_absent(r.channels_view(), c);
            }
        }
        r
    }

    /// Whether `add_message(_, message)` keeps every count within its bound.
    pub fn has_room_for(&self, message: &str) -> (r: bool)
        requires
            self.wf(),
        ensures
            r == self.has_room(message@),
    {
        let n = message.unicode_len();
        n < VOLUME_LIMIT && self.volume <= VOLUME_LIMIT - n - 1
    }

    fn get_last(&self, channel: &String) -> (r: Option<String>)
        ensures
            opt_view(r) == self.last_message(channel@),
    {
        let ghost s = self.channels_view();
        match find_key(&self.last_message, channel) {
            Some(i) => {
                proof {
                    lemma_channel_found(self.last_message@, channel@, i as int);
                }
                Some(self.last_message[i].1.clone())
            },
            None => {
                proof {
                    lemma_channel_missing(self.last_message@, channel@);
                }
                None
            },
        }
    }

    fn put_last(&mut self, channel: String, message: String)
        ensures
            forall|c: Seq<char>| #[trigger]
                final(self).last_message(c) == (if c == channel@ {
                    Some(message@)
                } else {
                    old(self).last_message(c)
                }),
            final(self).first_words == old(self).first_words,
            final(self).words == old(self).words,
            final(self).lengths == old(self).lengths,
            final(self).volume == old(self).volume,
    {
        let ghost s = self.channels_view();
        let ghost k = channel@;
        let ghost m = message@;
        match find_key(&self.last_message, &channel) {
            Some(i) => {
                proof {
                    lemma_channel_found(self.last_message@, k, i as int);
                }
                self.last_message[i].1 = message;
                assert(self.channels_view() =~= s.update(i as int, (k, m)));
                proof {
                    assert forall|c: Seq<char>| #[trigger] self.last_message(c) == (if c == k {
                        Some(m)
                    } else {
                        lookup(s, c)
                    }) by {
                        lemma_lookup_update(s, k, i as int, m, c);
                    }
                }
            },
            None => {
                proof {
                    lemma_channel_missing(self.last_message@, k);
                }
                self.last_message.push((channel, message));
                assert(self.channels_view() =~= s.push((k, m)));
                proof {
                    assert forall|c: Seq<char>| #[trigger] self.last_message(c) == (if c == k {
                        Some(m)
                    } else {
                        lookup(s, c)
                    }) by {
                        lemma_lookup_push(s, k, m, c);
                    }
                }
            },
        }
    }

    /// Stores `message` as the context of `channel`, learning nothing from it.
    pub fn set_message(&mut self, channel: &str, message: &str)
        requires
            old(self).wf(),
        ensures
            final(self).wf(),
            Self::primed(*old(self), *final(self), channel@, message@),
    {
        let ghost before = *self;
        self.put_last(channel.to_owned(), message.to_owned());
        proof {
            assert(self.words_view() == before.words_view());
            assert(self.starts_view() == before.starts_view());
            assert forall|a: Seq<char>, b: Seq<char>| #[trigger] self.transitions(a, b) >= 1 implies no_space(b) by {
                assert(before.transitions(a, b) == self.transitions(a, b));
            }
            assert forall|a: Seq<char>, st: (Seq<char>, Option<Seq<char>>)| #[trigger]
                self.start_count(a, st) >= 1 implies no_space(st.0) by {
                assert(before.start_count(a, st) == self.start_count(a, st));
            }
        }
    }
    /// Trains on `message` from `channel`: records its word count, the start
    /// it makes after the channel's previous message, and each pair of
    /// adjacent words; then keeps it as the channel's context. An empty
    /// message changes nothing.
    pub fn add_message(&mut self, channel: &str, message: &str)
        requires
            old(self).wf(),
            message@.len() == 0 || old(self).has_room(message@),
        ensures
            final(self).wf(),
            message@.len() == 0 ==> *final(self) == *old(self),
            Self::recorded(*old(self), *final(self), channel@, message@),
    {
        let chan = channel.to_owned();
        let prev = self.get_last(&chan);
        if message.is_empty() {
            return;
        }
        let ghost s0 = *self;
        let ghost v0 = self.volume as nat;
        self.put_last(chan, message.to_owned());
        let ghost sp = *self;
        let toks = split_words(message);
        let ghost t = split_spaces(message@);
        proof {
            lemma_split_len(message@);
        }
        let n = toks.len();
        self.lengths.insert(n);
        let ghost s1 = *self;
        match prev {
            Some(p) => {
                let ptoks = split_words(p.as_str());
                proof {
                    lemma_split_len(p@);
                }
                let pl = ptoks.len();
                let key = lowercase(ptoks[pl - 1].as_str());
                let second = if pl >= 2 {
                    Some(lowercase(ptoks[pl - 2].as_str()))
                } else {
                    None
                };
                let st = Start { word: toks[0].clone(), prev: second };
                assert(st@ == (t[0], start_prev(p@)));
                bump(&mut self.first_words, key, st, Ghost(v0));
            },
            None => {
                proof {
                    lemma_tables_ok_weaken(self.first_words@, v0, v0 + 1);
                }
            },
        }
        let ghost s2 = *self;
        let mut i: usize = 0;
        while i + 1 < n
            invariant
                n == t.len(),
                n >= 1,
                toks@.len() == n,
                forall|j: int| 0 <= j < n ==> #[trigger] toks@[j]@ == t[j],
                i + 1 <= n,
                v0 + n <= VOLUME_LIMIT,
                tables_ok(self.words@, (v0 + i) as nat),
                self.first_words == s2.first_words,
                self.lengths == s2.lengths,
                self.last_message == s2.last_message,
                self.volume == s2.volume,
                forall|a: Seq<char>, b: Seq<char>| #[trigger]
                    count_in(tables_view(self.words@), a, b) == count_in(
                        tables_view(s0.words@),
                        a,
                        b,
                    ) + pair_count(t.subrange(0, i + 1), a, b),
                forall|a: Seq<char>| #[trigger]
                    total_in(tables_view(self.words@), a) == total_in(tables_view(s0.words@), a)
                        + pairs_from(t.subrange(0, i + 1), a),
            decreases n - i,
        {
            let key = lowercase(toks[i].as_str());
            let next = toks[i + 1].clone();
            let ghost before = tables_view(self.words@);
            bump(&mut self.words, key, next, Ghost((v0 + i) as nat));
            proof {
                let u = t.subrange(0, i + 2);
                assert(u.drop_last() =~= t.subrange(0, i + 1));
                assert(u[u.len() - 2] == t[i as int]);
                assert(u.last() == t[i + 1]);
            }
            i = i + 1;
        }
        assert(t.subrange(0, n as int) =~= t);
        self.volume = self.volume + n;
        proof {
            lemma_tables_ok_weaken(self.words@, (v0 + i) as nat, self.volume as nat);
            lemma_tables_ok_weaken(self.first_words@, v0 + 1, self.volume as nat);
            assert(message@.len() != 0);
            assert(self.last_message == sp.last_message);
            assert(self.channels_view() == sp.channels_view());
            assert forall|c: Seq<char>| #[trigger] self.last_message(c) == (if c == channel@ {
                Some(message@)
            } else {
                s0.last_message(c)
            }) by {
                assert(sp.last_message(c) == self.last_message(c));
            }
            assert forall|k: usize| #[trigger] self.length_count(k) == s0.length_count(k) + (if k as nat == t.len() {
                1nat
            } else {
                0
            }) by {}
            assert forall|a: Seq<char>, b: Seq<char>| #[trigger]
                self.transitions(a, b) == s0.transitions(a, b) + pair_count(t, a, b) by {}
            assert(self.volume_spec() == s0.volume_spec() + t.len());
            assert forall|a: Seq<char>| #[trigger]
                self.word_total(a) == s0.word_total(a) + pairs_from(t, a) by {}
            assert(self.length_total() == s0.length_total() + 1);
            lemma_split_pieces(message@, ' ');
            assert forall|a: Seq<char>, b: Seq<char>| #[trigger] self.transitions(a, b) >= 1 implies no_space(b) by {
                if s0.transitions(a, b) == 0 {
                    lemma_pair_count_piece(t, a, b);
                    let k = choose|k: int| 0 <= k < t.len() && t[k] == b;
                    assert(t[k] == split_char(message@, ' ')[k]);
                }
            }
            assert forall|a: Seq<char>, st: (Seq<char>, Option<Seq<char>>)| #[trigger]
                self.start_count(a, st) >= 1 implies no_space(st.0) by {
                if s0.start_count(a, st) == 0 {
                    assert(st.0 == t[0]);
                    assert(t[0] == split_char(message@, ' ')[0]);
                }
            }
        }
    }
    /// Whether the model holds what a reply to `message` needs: a start
    /// recorded after its last word, and a message length.
    pub open spec fn can_reply(&self, message: Seq<char>) -> bool {
        &&& self.start_total(lower_of(split_spaces(message).last())) > 0
        &&& self.length_total() > 0
    }

    /// How many words were seen after a word that lower-cases to `a`.
    pub open spec fn word_total(&self, a: Seq<char>) -> nat {
        total_in(self.words_view(), a)
    }

    /// `ws` has the shape of a walk for a drawn length `n` whose first `k`
    /// words come from the walk itself: the walk stops early only where no
    /// word was ever seen after its last word, and at most five more words
    /// follow, fewer only where the last word may end a reply or has no
    /// successor.
    pub open spec fn walk_shape(&self, ws: Seq<Seq<char>>, n: usize, k: int) -> bool {
        &&& 1 <= k <= n + 1
        &&& k <= ws.len() <= k + 5
        &&& k < n + 1 ==> self.word_total(lower_of(ws[k - 1])) == 0
        &&& ws.len() < k + 5 ==> (valid_end(ws.last()) || self.word_total(lower_of(ws.last())) == 0)
    }

    /// The weights by which a reply to `message` draws its start: four for a
    /// start recorded after the message's own second-to-last word, if it has
    /// one, and one for any other.
    pub open spec fn start_weights(message: Seq<char>) -> spec_fn((Seq<char>, Option<Seq<char>>)) -> nat {
        let t = split_spaces(message);
        if t.len() >= 2 {
            |k: (Seq<char>, Option<Seq<char>>)|
                if k.1 == Some(lower_of(t[t.len() - 2])) {
                    4nat
                } else {
                    1nat
                }
        } else {
            |k: (Seq<char>, Option<Seq<char>>)| 1nat
        }
    }

    /// `st` is what some draw below the weighted total lands on in the table
    /// of starts recorded after the last word of `message`, weighed by
    /// `start_weights(message)`.
    pub open spec fn start_drawn(&self, message: Seq<char>, st: (Seq<char>, Option<Seq<char>>)) -> bool {
        match lookup(self.starts_view(), lower_of(split_spaces(message).last())) {
            Some(tb) => exists|n: nat|
                n < weighted_sum_of(tb, Self::start_weights(message)) && #[trigger] landing(
                    tb,
                    Self::start_weights(message),
                    n,
                ) == Some(st),
            None => false,
        }
    }

    /// `ws` is a chain of words the model may give in reply to `message`: it
    /// opens with a start recorded after the message's last word, each word
    /// was seen after the one before it, and it is a walk for a length drawn
    /// from those of trained messages.
    pub open spec fn is_reply_chain(&self, message: Seq<char>, ws: Seq<Seq<char>>) -> bool {
        &&& ws.len() >= 1
        &&& exists|p: Option<Seq<char>>|
            #[trigger] self.start_count(lower_of(split_spaces(message).last()), (ws[0], p)) >= 1
                && self.start_drawn(message, (ws[0], p))
        &&& forall|i: int|
            0 <= i < ws.len() - 1 ==> self.transitions(lower_of(ws[i]), #[trigger] ws[i + 1]) >= 1
        &&& exists|n: usize, k: int| self.length_count(n) >= 1 && #[trigger] self.walk_shape(ws, n, k)
    }

    /// A word seen after `w`, drawn by how often it was seen there.
    fn next_word(&self, w: &String) -> (r: Option<String>)
        requires
            self.wf(),
        ensures
            r matches Some(x) ==> self.transitions(lower_of(w@), x@) >= 1,
            r is None <==> self.word_total(lower_of(w@)) == 0,
    {
        let key = lowercase(w.as_str());
        let ghost s = self.words_view();
        match find_key(&self.words, &key) {
            Some(j) => {
                proof {
                    lemma_table_found(self.words@, key@, j as int);
                    assert(self.words@[j as int].1.wf());
                    assert(sum_of(self.words@[j as int].1@) >= 1);
                }
                match self.words[j].1.sample() {
                    Some(x) => Some(x.clone()),
                    None => None,
                }
            },
            None => {
                proof {
                    lemma_table_missing(self.words@, key@);
                }
                None
            },
        }
    }

    /// Draws a reply to `message`: a start recorded after its last word
    /// (four times likelier where its second-to-last word matches too), then
    /// a walk of seen word pairs for a drawn message length, then up to five
    /// more steps while the last word makes a poor ending. `None` where the
    /// model holds no start for that last word, or no message length.
    pub fn get_reply(&self, message: &str) -> (r: Option<String>)
        requires
            self.wf(),
        ensures
            r is Some <==> self.can_reply(message@),
            r matches Some(s) ==> exists|ws: Seq<Seq<char>>|
                self.is_reply_chain(message@, ws) && s@ == join_spaces(ws) && split_spaces(s@)
                    == ws,
    {
        let toks = split_words(message);
        let ghost t = split_spaces(message@);
        proof {
            lemma_split_len(message@);
        }
        let n = toks.len();
        let last = lowercase(toks[n - 1].as_str());
        let ghost a = last@;
        assert(a == lower_of(t.last()));
        let ghost s = self.starts_view();
        let fi = match find_key(&self.first_words, &last) {
            Some(i) => i,
            None => {
                proof {
                    lemma_table_missing(self.first_words@, a);
                }
                return None;
            },
        };
        proof {
            lemma_table_found(self.first_words@, a, fi as int);
            assert(self.first_words@[fi as int].1.wf());
        }
        let table = &self.first_words[fi].1;
        let picked = if n >= 2 {
            let bias = PreferPrev { word: lowercase(toks[n - 2].as_str()) };
            proof {
                lemma_weighted_sum_bound(table@, weigh::<Start, PreferPrev>(bias), 4);
                assert(weigh::<Start, PreferPrev>(bias) =~= Self::start_weights(message@));
            }
            let r = table.sample_biased(&bias);
            proof {
                if let Some(k) = r {
                    let w = Self::start_weights(message@);
                    let m = choose|m: nat|
                        m < weighted_sum_of(table@, weigh::<Start, PreferPrev>(bias)) && landing(
                            table@,
                            weigh::<Start, PreferPrev>(bias),
                            m,
                        ) == Some(k@);
                    assert(landing(table@, w, m) == Some(k@));
                    assert(self.start_drawn(message@, k@));
                }
            }
            r
        } else {
            proof {
                assert(unit_weight::<(Seq<char>, Option<Seq<char>>)>() =~= Self::start_weights(message@));
            }
            let r = table.sample();
            proof {
                if let Some(k) = r {
                    let w = Self::start_weights(message@);
                    let m = choose|m: nat|
                        m < sum_of(table@) && landing(table@, unit_weight(), m) == Some(k@);
                    lemma_unit_weighted_sum(table@);
                    assert(landing(table@, w, m) == Some(k@));
                    assert(self.start_drawn(message@, k@));
                }
            }
            r
        };
        let start = match picked {
            Some(st) => st,
            None => {
                return None;
            },
        };
        let ghost sv = start@;
        assert(self.start_count(a, sv) >= 1);
        assert(self.start_drawn(message@, sv));
        let length = match self.lengths.sample() {
            Some(l) => *l,
            None => {
                return None;
            },
        };
        assert(self.length_count(length) >= 1);
        let mut words: Vec<String> = Vec::new();
        words.push(start.word.clone());
        let mut remaining: usize = length;
        while remaining > 0
            invariant
                self.wf(),
                words@.len() >= 1,
                words@.len() + remaining == length + 1 || (remaining == 0 && words@.len()
                    < length + 1 && self.word_total(lower_of(words_of(words@).last())) == 0),
                words_of(words@)[0] == sv.0,
                forall|i: int|
                    0 <= i < words@.len() - 1 ==> self.transitions(
                        lower_of(words_of(words@)[i]),
                        #[trigger] words_of(words@)[i + 1],
                    ) >= 1,
            decreases remaining,
        {
            let ghost before = words_of(words@);
            match self.next_word(&words[words.len() - 1]) {
                Some(w) => {
                    words.push(w);
                    assert(words_of(words@) =~= before.push(w@));
                    remaining = remaining - 1;
                },
                None => {
                    remaining = 0;
                },
            }
        }
        let ghost k = words@.len() as int;
        let mut tries: usize = 0;
        while tries < 5
            invariant
                self.wf(),
                tries <= 5,
                1 <= k <= words@.len() <= k + tries,
                k <= length + 1,
                k < length + 1 ==> self.word_total(lower_of(words_of(words@)[k - 1])) == 0,
                words@.len() < k + tries ==> (valid_end(words_of(words@).last())
                    || self.word_total(lower_of(words_of(words@).last())) == 0),
                words_of(words@)[0] == sv.0,
                forall|i: int|
                    0 <= i < words@.len() - 1 ==> self.transitions(
                        lower_of(words_of(words@)[i]),
                        #[trigger] words_of(words@)[i + 1],
                    ) >= 1,
            decreases 5 - tries,
        {
            let ghost before = words_of(words@);
            if !is_valid_end(words[words.len() - 1].as_str()) {
                match self.next_word(&words[words.len() - 1]) {
                    Some(w) => {
                        words.push(w);
                        assert(words_of(words@) =~= before.push(w@));
                        assert(words_of(words@)[k - 1] == before[k - 1]);
                    },
                    None => {
                        tries = 4;
                    },
                }
            }
            tries = tries + 1;
        }
        let r = join_words(&words);
        proof {
            let ws = words_of(words@);
            assert(self.start_count(lower_of(t.last()), (ws[0], sv.1)) >= 1);
            assert(self.length_count(length) >= 1 && self.walk_shape(ws, length, k));
            assert(self.is_reply_chain(message@, ws));
            assert forall|i: int| 0 <= i < ws.len() implies no_space(#[trigger] ws[i]) by {
                if i > 0 {
                    assert(self.transitions(lower_of(ws[i - 1]), ws[(i - 1) + 1]) >= 1);
                }
            }
            lemma_split_join(ws);
        }
        Some(r)
    }
    /// `after` is `before` having taken in `line` from `channel`: a line
    /// that starts with `magic` only becomes context, with that prefix
    /// stripped; any other line is trained on as it stands.
    pub open spec fn took_line(
        before: Pizzabot,
        after: Pizzabot,
        channel: Seq<char>,
        line: Seq<char>,
        magic: Seq<char>,
    ) -> bool {
        if magic.len() <= line.len() && line.subrange(0, magic.len() as int) == magic {
            Self::primed(before, after, channel, line.subrange(magic.len() as int, line.len() as int))
        } else {
            Self::recorded(before, after, channel, line)
        }
    }

    /// `after` is `before` having taken in `lines` from `channel`, in order.
    pub open spec fn loaded(
        before: Pizzabot,
        after: Pizzabot,
        channel: Seq<char>,
        lines: Seq<Seq<char>>,
        magic: Seq<char>,
    ) -> bool
        decreases lines.len(),
    {
        if lines.len() == 0 {
            after == before
        } else {
            exists|mid: Pizzabot|
                Self::loaded(before, mid, channel, lines.drop_last(), magic) && #[trigger] Self::took_line(
                    mid,
                    after,
                    channel,
                    lines.last(),
                    magic,
                )
        }
    }

    /// Takes in a corpus from `channel` line by line: lines that start with
    /// `magic` only set the channel's context, the others are trained on.
    pub fn load_legacy_text(&mut self, channel: &str, contents: &str, magic: &str)
        requires
            old(self).wf(),
            old(self).has_room(contents@),
        ensures
            final(self).wf(),
            Self::loaded(*old(self), *final(self), channel@, split_char(contents@, '\n'), magic@),
    {
        let lines = split_at_char(contents, '\n');
        let ghost ls = split_char(contents@, '\n');
        proof {
            lemma_split_char_len(contents@, '\n');
            assert(ls.subrange(0, ls.len() as int) =~= ls);
            assert(ls.subrange(0, 0) =~= Seq::<Seq<char>>::empty());
        }
        let ghost s0 = *self;
        let mut i: usize = 0;
        while i < lines.len()
            invariant
                self.wf(),
                lines@.len() == ls.len(),
                ls == split_char(contents@, '\n'),
                forall|j: int| 0 <= j < ls.len() ==> #[trigger] lines@[j]@ == ls[j],
                i <= ls.len(),
                self.volume_spec() + pieces_len(ls.subrange(i as int, ls.len() as int)) <= VOLUME_LIMIT,
                Self::loaded(s0, *self, channel@, ls.subrange(0, i as int), magic@),
            decreases ls.len() - i,
        {
            let ghost mid = *self;
            let line = lines[i].as_str();
            proof {
                let rest = ls.subrange(i as int, ls.len() as int);
                assert(rest[0] == ls[i as int]);
                assert(rest.drop_first() =~= ls.subrange(i + 1, ls.len() as int));
                lemma_split_len(line@);
            }
            if has_prefix(line, magic) {
                let rest = line.substring_char(magic.unicode_len(), line.unicode_len());
                self.set_message(channel, rest);
            } else {
                self.add_message(channel, line);
            }
            proof {
                let u = ls.subrange(0, i + 1);
                assert(u.drop_last() =~= ls.subrange(0, i as int));
                assert(u.last() == ls[i as int]);
                assert(Self::took_line(mid, *self, channel@, u.last(), magic@));
            }
            i = i + 1;
        }
    }

    /// How often `to` was seen right after a word that lower-cases to `from`.
    pub fn word_count(&self, from: &str, to: &str) -> (r: usize)
        requires
            self.wf(),
        ensures
            r == self.transitions(from@, to@),
    {
        let key = from.to_owned();
        let ghost s = self.words_view();
        match find_key(&self.words, &key) {
            Some(j) => {
                proof {
                    lemma_table_found(self.words@, key@, j as int);
                    assert(self.words@[j as int].1.wf());
                }
                self.words[j].1.count(&to.to_owned())
            },
            None => {
                proof {
                    lemma_table_missing(self.words@, key@);
                }
                0
            },
        }
    }

    /// How often `st` started a message after one whose last word
    /// lower-cases to `key`.
    pub fn start_count_of(&self, key: &str, st: &Start) -> (r: usize)
        requires
            self.wf(),
        ensures
            r == self.start_count(key@, st@),
    {
        let key = key.to_owned();
        let ghost s = self.starts_view();
        match find_key(&self.first_words, &key) {
            Some(j) => {
                proof {
                    lemma_table_found(self.first_words@, key@, j as int);
                    assert(self.first_words@[j as int].1.wf());
                }
                self.first_words[j].1.count(st)
            },
            None => {
                proof {
                    lemma_table_missing(self.first_words@, key@);
                }
                0
            },
        }
    }

    /// How many trained messages had `n` words.
    pub fn length_count_of(&self, n: usize) -> (r: usize)
        requires
            self.wf(),
        ensures
            r == self.length_count(n),
    {
        self.lengths.count(&n)
    }

    /// The context stored for `channel`.
    pub fn last_message_of(&self, channel: &str) -> (r: Option<String>)
        ensures
            opt_view(r) == self.last_message(channel@),
    {
        self.get_last(&channel.to_owned())
    }

    /// How many words the model has taken in.
    pub fn volume(&self) -> (r: usize)
        ensures
            r == self.volume_spec(),
    {
        self.volume
    }
}

/// Context stored by `set_message` takes part in learning as any message
/// does: the next message trained on that channel is recorded as a start
/// after it.
pub proof fn lemma_primed_context_seeds_start(
    b0: Pizzabot,
    b1: Pizzabot,
    b2: Pizzabot,
    channel: Seq<char>,
    context: Seq<char>,
    message: Seq<char>,
)
    requires
        Pizzabot::primed(b0, b1, channel, context),
        Pizzabot::recorded(b1, b2, channel, message),
        message.len() > 0,
    ensures
        b2.start_count(start_key(context), (split_spaces(message)[0], start_prev(context)))
            == b0.start_count(start_key(context), (split_spaces(message)[0], start_prev(context)))
            + 1,
{
    assert(b1.last_message(channel) == Some(context));
    assert(b1.starts_view() == b0.starts_view());
    let st = (split_spaces(message)[0], start_prev(context));
    assert(b2.start_count(start_key(context), st) == b1.start_count(start_key(context), st) + 1);
}

/// An empty message teaches nothing and leaves every channel's context as
/// it was.
pub proof fn lemma_empty_message_changes_nothing(b0: Pizzabot, b1: Pizzabot, channel: Seq<char>)
    requires
        Pizzabot::recorded(b0, b1, channel, Seq::empty()),
    ensures
        b1.tables() == b0.tables(),
        forall|c: Seq<char>| #[trigger] b1.last_message(c) == b0.last_message(c),
{
}

/// A model that has trained on no message gives no reply, whatever it is
/// asked.
pub proof fn lemma_untrained_gives_no_reply(b: Pizzabot, message: Seq<char>)
    requires
        b.length_total() == 0,
    ensures
        !b.can_reply(message),
{
}

} // verus!
