//! The deck of the Solitaire keystream: 54 cards, numbered 1 to 52 for the
//! ordinary cards, 53 for joker A and 54 for joker B, and the four moves
//! that evolve it.
use rand::seq::SliceRandom;
use rand_pcg::Lcg128Xsl64;
use rand_seeder::Seeder;
use vstd::prelude::*;

verus! {

broadcast use {vstd::seq_lib::group_to_multiset_ensures, vstd::multiset::group_multiset_axioms};

/// Number of cards in the deck.
pub const DECK_SIZE: usize = 54;

/// Joker A.
pub const JOKER_A: u32 = 53;

/// Joker B.
pub const JOKER_B: u32 = 54;

/// How many times keying shuffles the deck.
pub const SHUFFLE_ROUNDS: u8 = 6;

/// How many steps the keystream generator takes at most in search of a
/// card that is not a joker. A run of that many joker draws in a row is
/// not known to occur; should one, the last card drawn is used, so that
/// the generator always ends.
pub const MAX_DRAWS: u32 = 10000;

pub open spec fn is_joker(c: u32) -> bool {
    c == JOKER_A || c == JOKER_B
}

/// A layout is a deck when it is a permutation of the cards 1 to 54: each
/// of them occurs exactly once and nothing else occurs.
pub open spec fn is_deck(s: Seq<u32>) -> bool {
    &&& s.len() == DECK_SIZE
    &&& forall|c: u32| #[trigger]
        s.to_multiset().count(c) == if 1 <= c <= 54 {
            1nat
        } else {
            0nat
        }
}

/// The deck in its initial order: 1, 2, ..., 54.
pub open spec fn fresh_deck() -> Seq<u32> {
    Seq::new(54, |i: int| (i + 1) as u32)
}

/// `s` with the cards at `i` and `j` exchanged.
pub open spec fn swapped(s: Seq<u32>, i: int, j: int) -> Seq<u32> {
    s.update(i, s[j]).update(j, s[i])
}

/// Where card `c` lies in `s`.
pub open spec fn position(s: Seq<u32>, c: u32) -> int {
    s.index_of(c)
}

/// First move: joker A changes place with the card below it, or with the
/// top card when it is at the bottom.
pub open spec fn swap_joker_a(s: Seq<u32>) -> Seq<u32> {
    let i = position(s, JOKER_A);
    if i == 53 {
        swapped(s, 53, 0)
    } else {
        swapped(s, i, i + 1)
    }
}

/// Second move: joker B changes place with the card two below it, counting
/// on from the top past the bottom.
pub open spec fn swap_joker_b(s: Seq<u32>) -> Seq<u32> {
    let i = position(s, JOKER_B);
    if i == 53 {
        swapped(s, 53, 2)
    } else if i == 52 {
        swapped(s, 52, 1)
    } else {
        swapped(s, i, i + 2)
    }
}

/// Index of the upper of the two jokers.
pub open spec fn first_joker(s: Seq<u32>) -> int {
    let a = position(s, JOKER_A);
    let b = position(s, JOKER_B);
    if a < b {
        a
    } else {
        b
    }
}

/// Index of the lower of the two jokers.
pub open spec fn second_joker(s: Seq<u32>) -> int {
    let a = position(s, JOKER_A);
    let b = position(s, JOKER_B);
    if a < b {
        b
    } else {
        a
    }
}

/// Third move: the cards below the lower joker and the cards above the
/// upper joker change places; the jokers and what lies between them stay.
pub open spec fn triple_cut_of(s: Seq<u32>) -> Seq<u32> {
    let f = first_joker(s);
    let l = second_joker(s);
    s.subrange(l + 1, 54) + s.subrange(f, l + 1) + s.subrange(0, f)
}

/// Fourth move: with a bottom card `b` that is not a joker, the top `b`
/// cards go to just above the bottom card.
pub open spec fn count_cut_of(s: Seq<u32>) -> Seq<u32> {
    let b = s[53];
    if is_joker(b) {
        s
    } else {
        s.subrange(b as int, 53) + s.subrange(0, b as int) + seq![b]
    }
}

/// The four moves in order.
pub open spec fn step(s: Seq<u32>) -> Seq<u32> {
    count_cut_of(triple_cut_of(swap_joker_b(swap_joker_a(s))))
}

/// The deck after `n` steps.
pub open spec fn steps(s: Seq<u32>, n: nat) -> Seq<u32>
    decreases n,
{
    if n == 0 {
        s
    } else {
        step(steps(s, (n - 1) as nat))
    }
}

/// The cards after the first `rounds` shuffle rounds of keying from
/// `seed`.
pub open spec fn keyed(seed: Seq<char>, rounds: nat, cards: Seq<u32>) -> Seq<u32>
    decreases rounds,
{
    if rounds == 0 {
        cards
    } else {
        seeded_shuffle(seed, (rounds - 1) as nat, keyed(seed, (rounds - 1) as nat, cards))
    }
}

/// The deck that keying the initial order from `key` gives.
pub open spec fn keyed_deck(key: Seq<char>) -> Seq<u32> {
    keyed(key, SHUFFLE_ROUNDS as nat, fresh_deck())
}

/// The card found by counting down as many cards as the top card says
/// (a joker counts 53).
pub open spec fn draw(s: Seq<u32>) -> u32 {
    let t = s[0];
    if t >= 53 {
        s[53]
    } else {
        s[t as int]
    }
}

/// Where the keystream generator stops: after the first step that draws a
/// card other than a joker, or after `tries` steps. Gives the deck and the
/// card drawn last.
pub open spec fn advance(s: Seq<u32>, tries: nat) -> (Seq<u32>, u32)
    decreases tries,
{
    let t = step(s);
    let v = draw(t);
    if !is_joker(v) || tries <= 1 {
        (t, v)
    } else {
        advance(t, (tries - 1) as nat)
    }
}

/// A card of 1 to 52 as a letter shift of 1 to 26.
pub open spec fn letter_shift(v: u32) -> u32 {
    ((v - 1) % 26 + 1) as u32
}

/// One value of the keystream, and the deck after it.
pub open spec fn next_value(s: Seq<u32>) -> (Seq<u32>, u32) {
    let (t, v) = advance(s, MAX_DRAWS as nat);
    (t, letter_shift(v))
}

/// The first `n` values of the keystream of deck `s`, and the deck after
/// them.
pub open spec fn keystream(s: Seq<u32>, n: nat) -> (Seq<u32>, Seq<u32>)
    decreases n,
{
    if n == 0 {
        (s, Seq::empty())
    } else {
        let (d, vs) = keystream(s, (n - 1) as nat);
        let (e, v) = next_value(d);
        (e, vs.push(v))
    }
}

/// The first `k` cards of the initial order: 1, 2, ..., k.
spec fn first_cards(k: nat) -> Seq<u32> {
    Seq::new(k, |i: int| (i + 1) as u32)
}

proof fn lemma_first_cards(k: nat)
    requires
        k <= 54,
    ensures
        forall|c: u32| #[trigger]
            first_cards(k).to_multiset().count(c) == if 1 <= c <= k {
                1nat
            } else {
                0nat
            },
    decreases k,
{
    if k > 0 {
        lemma_first_cards((k - 1) as nat);
        assert(first_cards(k) =~= first_cards((k - 1) as nat).push(k as u32));
    } else {
        assert(first_cards(0) =~= Seq::<u32>::empty());
    }
}

/// The initial order is a deck.
pub proof fn lemma_fresh_deck()
    ensures
        is_deck(fresh_deck()),
{
    lemma_first_cards(54);
    assert(first_cards(54) =~= fresh_deck());
}

/// What a deck tells of its cards.
pub proof fn lemma_deck_facts(s: Seq<u32>)
    requires
        is_deck(s),
    ensures
        s.no_duplicates(),
        forall|i: int| 0 <= i < 54 ==> 1 <= #[trigger] s[i] <= 54,
        forall|c: u32| 1 <= c <= 54 ==> #[trigger] s.contains(c),
{
    assert forall|i: int| 0 <= i < 54 implies 1 <= #[trigger] s[i] <= 54 by {
        assert(s.contains(s[i]));
        assert(s.to_multiset().count(s[i]) > 0);
    }
    assert forall|c: u32| 1 <= c <= 54 implies #[trigger] s.contains(c) by {
        assert(s.to_multiset().count(c) > 0);
    }
    s.lemma_multiset_has_no_duplicates_conv();
}

/// In a deck, the card found at `i` is at `i` and nowhere else.
pub proof fn lemma_position(s: Seq<u32>, i: int)
    requires
        is_deck(s),
        0 <= i < 54,
    ensures
        position(s, s[i]) == i,
{
    lemma_deck_facts(s);
    let c = s[i];
    assert(s.contains(c));
    let p = s.index_of(c);
    assert(0 <= p < 54 && s[p] == c);
}

/// A rearrangement of a deck is a deck.
pub proof fn lemma_rearranged(s: Seq<u32>, t: Seq<u32>)
    requires
        is_deck(s),
        t.len() == 54,
        t.to_multiset() == s.to_multiset(),
    ensures
        is_deck(t),
{
}

/// Exchanging two cards of a deck leaves a deck.
pub proof fn lemma_swapped(s: Seq<u32>, i: int, j: int)
    requires
        is_deck(s),
        0 <= i < 54,
        0 <= j < 54,
    ensures
        is_deck(swapped(s, i, j)),
{
    let t = swapped(s, i, j);
    if i == j {
        assert(t =~= s);
    } else {
        let u = s.update(i, s[j]);
        assert(u.to_multiset() == s.to_multiset().insert(s[j]).remove(s[i]));
        assert(t.to_multiset() == u.to_multiset().insert(s[i]).remove(u[j]));
        assert(t.to_multiset() =~= s.to_multiset());
    }
    lemma_rearranged(s, t);
}

/// The triple cut of a deck is a deck.
pub proof fn lemma_triple_cut(s: Seq<u32>, f: int, l: int)
    requires
        is_deck(s),
        0 <= f < l < 54,
    ensures
        is_deck(s.subrange(l + 1, 54) + s.subrange(f, l + 1) + s.subrange(0, f)),
{
    let a = s.subrange(0, f);
    let b = s.subrange(f, l + 1);
    let c = s.subrange(l + 1, 54);
    let t = c + b + a;
    assert(s =~= a + b + c);
    vstd::seq_lib::lemma_multiset_commutative(a + b, c);
    vstd::seq_lib::lemma_multiset_commutative(a, b);
    vstd::seq_lib::lemma_multiset_commutative(c + b, a);
    vstd::seq_lib::lemma_multiset_commutative(c, b);
    assert(t.to_multiset() =~= s.to_multiset());
    lemma_rearranged(s, t);
}

/// The count cut of a deck is a deck.
pub proof fn lemma_count_cut(s: Seq<u32>)
    requires
        is_deck(s),
    ensures
        is_deck(count_cut_of(s)),
{
    let b = s[53];
    if !is_joker(b) {
        lemma_deck_facts(s);
        let p = s.subrange(0, b as int);
        let q = s.subrange(b as int, 53);
        let e = seq![b];
        assert(s =~= p + q + e);
        vstd::seq_lib::lemma_multiset_commutative(p + q, e);
        vstd::seq_lib::lemma_multiset_commutative(p, q);
        vstd::seq_lib::lemma_multiset_commutative(q + p, e);
        vstd::seq_lib::lemma_multiset_commutative(q, p);
        assert(count_cut_of(s).to_multiset() =~= s.to_multiset());
        lemma_rearranged(s, count_cut_of(s));
    }
}

/// Each of the four moves, and so a whole step, takes a deck to a deck:
/// a permutation of the cards 1 to 54 with one joker A and one joker B.
pub proof fn lemma_moves_keep_deck(s: Seq<u32>)
    requires
        is_deck(s),
    ensures
        is_deck(swap_joker_a(s)),
        is_deck(swap_joker_b(s)),
        is_deck(triple_cut_of(s)),
        is_deck(count_cut_of(s)),
        is_deck(step(s)),
{
    lemma_each_move(s);
    lemma_each_move(swap_joker_a(s));
    lemma_each_move(swap_joker_b(swap_joker_a(s)));
    lemma_each_move(triple_cut_of(swap_joker_b(swap_joker_a(s))));
}

proof fn lemma_each_move(s: Seq<u32>)
    requires
        is_deck(s),
    ensures
        is_deck(swap_joker_a(s)),
        is_deck(swap_joker_b(s)),
        is_deck(triple_cut_of(s)),
        is_deck(count_cut_of(s)),
{
    lemma_deck_facts(s);
    assert(s.contains(JOKER_A) && s.contains(JOKER_B));
    let pa = position(s, JOKER_A);
    let pb = position(s, JOKER_B);
    assert(0 <= pa < 54 && s[pa] == JOKER_A);
    assert(0 <= pb < 54 && s[pb] == JOKER_B);
    if pa == 53 {
        lemma_swapped(s, 53, 0);
    } else {
        lemma_swapped(s, pa, pa + 1);
    }
    if pb == 53 {
        lemma_swapped(s, 53, 2);
    } else if pb == 52 {
        lemma_swapped(s, 52, 1);
    } else {
        lemma_swapped(s, pb, pb + 2);
    }
    lemma_triple_cut(s, first_joker(s), second_joker(s));
    lemma_count_cut(s);
}

/// However many steps are taken, a deck stays a permutation of the cards 1
/// to 54 with one joker A and one joker B.
pub proof fn lemma_steps_keep_deck(s: Seq<u32>, n: nat)
    requires
        is_deck(s),
    ensures
        is_deck(steps(s, n)),
        steps(s, n).to_multiset().count(JOKER_A) == 1,
        steps(s, n).to_multiset().count(JOKER_B) == 1,
    decreases n,
{
    if n > 0 {
        lemma_steps_keep_deck(s, (n - 1) as nat);
        lemma_moves_keep_deck(steps(s, (n - 1) as nat));
    }
}

/// Keying is deterministic: two decks that lie alike before keying from
/// the same seed lie alike after it.
pub proof fn lemma_keying_deterministic(seed: Seq<char>, s1: Seq<u32>, s2: Seq<u32>)
    requires
        s1 == s2,
    ensures
        keyed(seed, SHUFFLE_ROUNDS as nat, s1) == keyed(seed, SHUFFLE_ROUNDS as nat, s2),
{
}

/// The generator search keeps a deck a deck.
proof fn lemma_advance_keeps_deck(s: Seq<u32>, tries: nat)
    requires
        is_deck(s),
    ensures
        is_deck(advance(s, tries).0),
        1 <= advance(s, tries).1 <= 54,
    decreases tries,
{
    lemma_moves_keep_deck(s);
    lemma_deck_facts(step(s));
    let t = step(s);
    if !(!is_joker(draw(t)) || tries <= 1) {
        lemma_advance_keeps_deck(t, (tries - 1) as nat);
    }
}

/// However many keystream values are taken, the deck stays a permutation
/// of the cards 1 to 54, and every value is a letter shift of 1 to 26,
/// never a joker.
pub proof fn lemma_keystream_keeps_deck(s: Seq<u32>, n: nat)
    requires
        is_deck(s),
    ensures
        is_deck(keystream(s, n).0),
        keystream(s, n).1.len() == n,
        forall|i: int| 0 <= i < n ==> 1 <= #[trigger] keystream(s, n).1[i] <= 26,
    decreases n,
{
    if n > 0 {
        lemma_keystream_keeps_deck(s, (n - 1) as nat);
        let d = keystream(s, (n - 1) as nat).0;
        lemma_advance_keeps_deck(d, MAX_DRAWS as nat);
    }
}

/// The first `i` values of a keystream do not depend on how many follow.
pub proof fn lemma_keystream_prefix(s: Seq<u32>, i: nat, n: nat)
    requires
        i <= n,
    ensures
        keystream(s, n).1.len() == n,
        keystream(s, n).1.take(i as int) == keystream(s, i).1,
    decreases n,
{
    if n > 0 {
        lemma_keystream_prefix(s, (n - 1) as nat, (n - 1) as nat);
        if i < n {
            lemma_keystream_prefix(s, i, (n - 1) as nat);
            assert(keystream(s, n).1.take(i as int) =~= keystream(s, (n - 1) as nat).1.take(
                i as int,
            ));
        } else {
            assert(keystream(s, n).1.take(i as int) =~= keystream(s, n).1);
        }
    }
}

/// The cards after shuffle round `round` of keying from `seed`.
pub uninterp spec fn seeded_shuffle(seed: Seq<char>, round: nat, cards: Seq<u32>) -> Seq<u32>;

/// Relies on rand_seeder's `Seeder::from(..).make_rng()`, rand_pcg's
/// `Pcg64` and rand's `SliceRandom::shuffle`: a PCG-64 generator is seeded
/// from the hash of the seed text and the round number, and rearranges the
/// cards in place, by exchanges only. The seeder is portable and
/// reproducible, so the result depends on the seed, the round and the
/// cards alone.
#[verifier::external_body]
fn shuffle_round(seed: &str, round: u8, cards: &mut Vec<u32>)
    ensures
        final(cards)@ == seeded_shuffle(seed@, round as nat, old(cards)@),
        final(cards)@.len() == old(cards)@.len(),
        final(cards)@.to_multiset() == old(cards)@.to_multiset(),
{
    let mut rng: Lcg128Xsl64 = Seeder::from((seed, round)).make_rng();
    cards.shuffle(&mut rng);
}

/// A deck of 54 cards.
pub struct Deck {
    layout: Vec<u32>,
}

impl View for Deck {
    type V = Seq<u32>;

    closed spec fn view(&self) -> Seq<u32> {
        self.layout@
    }
}

impl Deck {
    /// A deck holds each card exactly once.
    pub open spec fn wf(&self) -> bool {
        is_deck(self@)
    }

    /// A deck in its initial order 1, 2, ..., 54.
    pub fn new() -> (r: Deck)
        ensures
            r@ == fresh_deck(),
            r.wf(),
    {
        let mut layout: Vec<u32> = Vec::new();
        let mut c: u32 = 1;
        while c <= 54
            invariant
                1 <= c <= 55,
                layout@.len() == c - 1,
                forall|i: int| 0 <= i < layout@.len() ==> layout@[i] == (i + 1) as u32,
                forall|x: u32| #[trigger]
                    layout@.to_multiset().count(x) == if 1 <= x < c {
                        1nat
                    } else {
                        0nat
                    },
            decreases 55 - c,
        {
            layout.push(c);
            c = c + 1;
        }
        assert(layout@ =~= fresh_deck());
        Deck { layout }
    }

    /// The cards, from the top down.
    pub fn layout(&self) -> (r: &Vec<u32>)
        ensures
            r@ == self@,
    {
        &self.layout
    }

    /// Exchanges the cards at `i` and `j`.
    pub fn swap_cards(&mut self, i: usize, j: usize)
        requires
            old(self).wf(),
            i < DECK_SIZE,
            j < DECK_SIZE,
        ensures
            final(self)@ == swapped(old(self)@, i as int, j as int),
            final(self).wf(),
    {
        proof {
            lemma_swapped(self@, i as int, j as int);
        }
        let a = self.layout[i];
        let b = self.layout[j];
        self.layout.set(i, b);
        self.layout.set(j, a);
    }

    /// Index of the first card of `deck`, from `from` on, that is a joker;
    /// `deck.len()` when there is none.
    fn find_joker_from(deck: &Vec<u32>, from: usize) -> (r: usize)
        requires
            from <= deck@.len(),
        ensures
            from <= r <= deck@.len(),
            forall|k: int| from <= k < r ==> !is_joker(#[trigger] deck@[k]),
            r < deck@.len() ==> is_joker(deck@[r as int]),
    {
        let mut i = from;
        while i < deck.len()
            invariant
                from <= i <= deck@.len(),
                forall|k: int| from <= k < i ==> !is_joker(#[trigger] deck@[k]),
            decreases deck@.len() - i,
        {
            if deck[i] == JOKER_A || deck[i] == JOKER_B {
                return i;
            }
            i = i + 1;
        }
        i
    }

    /// Index of the first joker of `deck`, or 0 when it holds none.
    pub fn find_first_joker_index(deck: &Vec<u32>) -> (r: usize)
        ensures
            (exists|k: int| 0 <= k < deck@.len() && is_joker(#[trigger] deck@[k])) ==> {
                &&& r < deck@.len()
                &&& is_joker(deck@[r as int])
                &&& forall|k: int| 0 <= k < r ==> !is_joker(#[trigger] deck@[k])
            },
            (forall|k: int| 0 <= k < deck@.len() ==> !is_joker(#[trigger] deck@[k])) ==> r == 0,
    {
        let r = Deck::find_joker_from(deck, 0);
        if r == deck.len() {
            0
        } else {
            r
        }
    }

    /// Index of card `c`, which the deck holds.
    fn index_of_card(&self, c: u32) -> (r: usize)
        requires
            self.wf(),
            1 <= c <= 54,
        ensures
            r < DECK_SIZE,
            r == position(self@, c),
            self@[r as int] == c,
    {
        proof {
            lemma_deck_facts(self@);
        }
        let mut i: usize = 0;
        while i < DECK_SIZE
            invariant
                i <= DECK_SIZE,
                self.wf(),
                forall|k: int| 0 <= k < i ==> self@[k] != c,
            decreases DECK_SIZE - i,
        {
            if self.layout[i] == c {
                proof {
                    lemma_position(self@, i as int);
                }
                return i;
            }
            i = i + 1;
        }
        proof {
            assert(self@.contains(c));
        }
        i
    }

    /// First move: joker A goes one card down, from the bottom to the top.
    #[allow(non_snake_case)]
    pub fn swap_A_joker(&mut self)
        requires
            old(self).wf(),
        ensures
            final(self)@ == swap_joker_a(old(self)@),
            final(self).wf(),
    {
        let i = self.index_of_card(JOKER_A);
        if i == 53 {
            self.swap_cards(i, 0);
        } else {
            self.swap_cards(i, i + 1);
        }
    }

    /// Second move: joker B goes two cards down, past the bottom to the top.
    #[allow(non_snake_case)]
    pub fn swap_B_joker(&mut self)
        requires
            old(self).wf(),
        ensures
            final(self)@ == swap_joker_b(old(self)@),
            final(self).wf(),
    {
        let i = self.index_of_card(JOKER_B);
        if i == 53 {
            self.swap_cards(i, 2);
        } else if i == 52 {
            self.swap_cards(i, 1);
        } else {
            self.swap_cards(i, i + 2);
        }
    }

    /// Appends the cards of `src` from `from` up to `to`.
    fn append_range(out: &mut Vec<u32>, src: &Vec<u32>, from: usize, to: usize)
        requires
            from <= to <= src@.len(),
        ensures
            final(out)@ == old(out)@ + src@.subrange(from as int, to as int),
    {
        let mut i = from;
        while i < to
            invariant
                from <= i <= to <= src@.len(),
                out@ == old(out)@ + src@.subrange(from as int, i as int),
            decreases to - i,
        {
            out.push(src[i]);
            proof {
                assert(src@.subrange(from as int, i + 1) =~= src@.subrange(from as int, i as int).push(
                    src@[i as int],
                ));
            }
            i = i + 1;
        }
    }

    /// Third move: the cards above the upper joker and those below the lower
    /// joker change places.
    pub fn triple_cut(&mut self)
        requires
            old(self).wf(),
        ensures
            final(self)@ == triple_cut_of(old(self)@),
            final(self).wf(),
    {
        let ghost s = self@;
        let ghost pa = position(s, JOKER_A);
        let ghost pb = position(s, JOKER_B);
        proof {
            lemma_deck_facts(s);
            assert(s.contains(JOKER_A) && s.contains(JOKER_B));
            assert(s[pa] == JOKER_A && s[pb] == JOKER_B);
        }
        let f = Deck::find_first_joker_index(&self.layout);
        proof {
            assert(is_joker(s[pa]));
            lemma_position(s, f as int);
            assert(f == first_joker(s));
        }
        let l = Deck::find_joker_from(&self.layout, f + 1);
        proof {
            if s[f as int] == JOKER_A {
                assert(pb > f);
                assert(is_joker(s[pb]));
            } else {
                assert(pa > f);
                assert(is_joker(s[pa]));
            }
            lemma_position(s, l as int);
            assert(l == second_joker(s));
            lemma_triple_cut(s, f as int, l as int);
        }
        let mut new_layout: Vec<u32> = Vec::new();
        Deck::append_range(&mut new_layout, &self.layout, l + 1, DECK_SIZE);
        Deck::append_range(&mut new_layout, &self.layout, f, l + 1);
        Deck::append_range(&mut new_layout, &self.layout, 0, f);
        self.layout = new_layout;
        proof {
            assert(self@ =~= triple_cut_of(s));
        }
    }

    /// Fourth move: unless the bottom card is a joker, as many cards as it
    /// counts go from the top to just above it.
    pub fn count_cut(&mut self)
        requires
            old(self).wf(),
        ensures
            final(self)@ == count_cut_of(old(self)@),
            final(self).wf(),
    {
        let ghost s = self@;
        proof {
            lemma_deck_facts(s);
            lemma_count_cut(s);
        }
        let bottom = self.layout[DECK_SIZE - 1];
        if bottom == JOKER_A || bottom == JOKER_B {
            return;
        }
        let b = bottom as usize;
        let mut new_layout: Vec<u32> = Vec::new();
        Deck::append_range(&mut new_layout, &self.layout, b, DECK_SIZE - 1);
        Deck::append_range(&mut new_layout, &self.layout, 0, b);
        new_layout.push(bottom);
        self.layout = new_layout;
        proof {
            assert(self@ =~= count_cut_of(s));
        }
    }

    /// One step of the keystream: the four moves, then the card that the
    /// top card points at.
    pub fn keystream_step(&mut self) -> (r: u32)
        requires
            old(self).wf(),
        ensures
            final(self)@ == step(old(self)@),
            final(self).wf(),
            r == draw(final(self)@),
    {
        self.swap_A_joker();
        self.swap_B_joker();
        self.triple_cut();
        self.count_cut();
        proof {
            lemma_deck_facts(self@);
        }
        let top = self.layout[0];
        let k: usize = if top >= 53 {
            53
        } else {
            top as usize
        };
        self.layout[k]
    }

    /// A copy of this deck.
    pub fn duplicate(&self) -> (r: Deck)
        ensures
            r@ == self@,
    {
        let layout = self.layout.clone();
        proof {
            assert(layout@ =~= self.layout@);
        }
        Deck { layout }
    }

    /// Keys the deck from `seed`: six shuffle rounds, each with a generator
    /// seeded from that text and the round number.
    pub fn key_deck(&mut self, seed: &str)
        requires
            old(self).wf(),
        ensures
            final(self)@ == keyed(seed@, SHUFFLE_ROUNDS as nat, old(self)@),
            final(self).wf(),
    {
        let mut round: u8 = 0;
        while round < SHUFFLE_ROUNDS
            invariant
                round <= SHUFFLE_ROUNDS,
                self@ == keyed(seed@, round as nat, old(self)@),
                self.wf(),
            decreases SHUFFLE_ROUNDS - round,
        {
            let ghost before = self@;
            shuffle_round(seed, round, &mut self.layout);
            proof {
                lemma_rearranged(before, self@);
            }
            round = round + 1;
        }
    }

    /// The next value of the keystream, a letter shift of 1 to 26: steps the
    /// deck until a card other than a joker is drawn, and reduces that card.
    pub fn get_output_card(&mut self) -> (r: u32)
        requires
            old(self).wf(),
        ensures
            (final(self)@, r) == next_value(old(self)@),
            final(self).wf(),
            1 <= r <= 26,
    {
        let ghost s0 = self@;
        let mut v = self.keystream_step();
        let mut tries: u32 = MAX_DRAWS;
        while (v == JOKER_A || v == JOKER_B) && tries > 1
            invariant
                self.wf(),
                1 <= tries <= MAX_DRAWS,
                v == draw(self@),
                advance(s0, MAX_DRAWS as nat) == if !is_joker(v) || tries <= 1 {
                    (self@, v)
                } else {
                    advance(self@, (tries - 1) as nat)
                },
            decreases tries,
        {
            v = self.keystream_step();
            tries = tries - 1;
        }
        proof {
            lemma_deck_facts(self@);
        }
        (v - 1) % 26 + 1
    }
}

} // verus!
