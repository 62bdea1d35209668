use vstd::prelude::*;
use crate::vocabulary::{lemma_insert_keeps, views, VocabModel, Vocabulary};

verus! {

/// The adjacent pair of symbols at positions `i` and `i + 1`.
pub open spec fn pair_at(s: Seq<usize>, i: int) -> (usize, usize) {
    (s[i], s[i + 1])
}

/// Number of positions `i < n` at which the pair `p` starts.
pub open spec fn count_upto(s: Seq<usize>, p: (usize, usize), n: int) -> nat
    decreases n,
{
    if n <= 0 {
        0
    } else {
        count_upto(s, p, n - 1) + if pair_at(s, n - 1) == p {
            1nat
        } else {
            0nat
        }
    }
}

/// Number of occurrences of the adjacent pair `p` in `s`.
pub open spec fn pair_count(s: Seq<usize>, p: (usize, usize)) -> nat {
    if s.len() < 2 {
        0
    } else {
        count_upto(s, p, s.len() - 1)
    }
}

/// Frequency of the pair that starts at position `i`.
pub open spec fn count_at(s: Seq<usize>, i: int) -> nat {
    pair_count(s, pair_at(s, i))
}

/// Position `j` starts a pair of maximal frequency, and no earlier position does.
pub open spec fn is_winner_pos(s: Seq<usize>, j: int) -> bool {
    &&& 0 <= j < s.len() - 1
    &&& forall|i: int| 0 <= i < s.len() - 1 ==> #[trigger] count_at(s, i) <= count_at(s, j)
    &&& forall|i: int| 0 <= i < j ==> #[trigger] count_at(s, i) < count_at(s, j)
}

/// The merge candidate: the most frequent adjacent pair; among equally frequent pairs, the
/// one that occurs first in `s`.
pub open spec fn winner(s: Seq<usize>) -> (usize, usize) {
    pair_at(s, choose|j: int| is_winner_pos(s, j))
}

proof fn lemma_count_upto_bound(s: Seq<usize>, p: (usize, usize), n: int)
    requires
        0 <= n,
    ensures
        count_upto(s, p, n) <= n,
    decreases n,
{
    if n > 0 {
        lemma_count_upto_bound(s, p, n - 1);
    }
}

proof fn lemma_winner_unique(s: Seq<usize>, j: int)
    requires
        is_winner_pos(s, j),
    ensures
        winner(s) == pair_at(s, j),
{
    let k = choose|k: int| is_winner_pos(s, k);
    assert(is_winner_pos(s, k));
    if k < j {
        assert(count_at(s, k) < count_at(s, j));
        assert(count_at(s, j) <= count_at(s, k));
    } else if j < k {
        assert(count_at(s, j) < count_at(s, k));
        assert(count_at(s, k) <= count_at(s, j));
    }
}

/// How often the pair `(a, b)` occurs adjacently in `s`.
pub fn pair_frequency(s: &Vec<usize>, a: usize, b: usize) -> (r: usize)
    ensures
        r == pair_count(s@, (a, b)),
{
    let n = s.len();
    if n < 2 {
        return 0;
    }
    let mut c: usize = 0;
    let mut i: usize = 0;
    while i < n - 1
        invariant
            n == s@.len(),
            n >= 2,
            i <= n - 1,
            c == count_upto(s@, (a, b), i as int),
            c <= i,
        decreases n - 1 - i,
    {
        if s[i] == a && s[i + 1] == b {
            c = c + 1;
        }
        i = i + 1;
    }
    c
}

/// The most frequent adjacent pair of `s` with its frequency; ties go to the pair that
/// occurs first. `None` when `s` has fewer than two symbols.
pub fn max_pair(s: &Vec<usize>) -> (r: Option<((usize, usize), usize)>)
    ensures
        s@.len() < 2 ==> r is None,
        s@.len() >= 2 ==> r == Some((winner(s@), pair_count(s@, winner(s@)) as usize)),
        s@.len() >= 2 ==> exists|j: int| is_winner_pos(s@, j),
{
    let n = s.len();
    if n < 2 {
        return None;
    }
    let mut best: usize = 0;
    let mut best_c = pair_frequency(s, s[0], s[1]);
    let mut i: usize = 1;
    while i < n - 1
        invariant
            n == s@.len(),
            n >= 2,
            1 <= i <= n - 1,
            best < i,
            best_c == count_at(s@, best as int),
            forall|k: int| 0 <= k < i ==> #[trigger] count_at(s@, k) <= best_c,
            forall|k: int| 0 <= k < best ==> #[trigger] count_at(s@, k) < best_c,
        decreases n - 1 - i,
    {
        let c = pair_frequency(s, s[i], s[i + 1]);
        assert(c == count_at(s@, i as int));
        if c > best_c {
            best = i;
            best_c = c;
        }
        i = i + 1;
    }
    proof {
        assert(is_winner_pos(s@, best as int));
        lemma_winner_unique(s@, best as int);
    }
    Some(((s[best], s[best + 1]), best_c))
}

/// Left-to-right rewrite of `s` in which each non-overlapping occurrence of the pair
/// `(a, b)` becomes the single symbol `k`.
pub open spec fn replace_pair(s: Seq<usize>, a: usize, b: usize, k: usize) -> Seq<usize>
    decreases s.len(),
{
    if s.len() < 2 {
        s
    } else if s[0] == a && s[1] == b {
        seq![k] + replace_pair(s.subrange(2, s.len() as int), a, b, k)
    } else {
        seq![s[0]] + replace_pair(s.subrange(1, s.len() as int), a, b, k)
    }
}

/// Every symbol of `s` is an id assigned in `v`.
pub open spec fn valid_ids(s: Seq<usize>, v: VocabModel) -> bool {
    forall|i: int| 0 <= i < s.len() ==> #[trigger] s[i] < v.tokens.len()
}

/// One pass of the merge engine: `None` when training stops at `(s, v)` (vocabulary full,
/// fewer than two symbols, no repeated pair, or the merged token too long), else the
/// rewritten sequence and the grown vocabulary.
pub open spec fn merge_pass(s: Seq<usize>, v: VocabModel) -> Option<(Seq<usize>, VocabModel)> {
    if v.is_full() || s.len() < 2 {
        None
    } else {
        let w = winner(s);
        let t = v.tokens[w.0 as int] + v.tokens[w.1 as int];
        if pair_count(s, w) < 2 || t.len() >= v.token_size {
            None
        } else {
            let v2 = v.insert(t);
            Some((replace_pair(s, w.0, w.1, v2.id_of(t) as usize), v2))
        }
    }
}

/// The sequence and vocabulary at which repeated passes stop; a pass that does not shorten
/// the sequence also ends training.
pub open spec fn converge(s: Seq<usize>, v: VocabModel) -> (Seq<usize>, VocabModel)
    decreases s.len(),
{
    match merge_pass(s, v) {
        Some((s2, v2)) => if s2.len() < s.len() {
            converge(s2, v2)
        } else {
            (s, v)
        },
        None => (s, v),
    }
}

/// Number of passes that change the sequence before training stops.
pub open spec fn pass_count(s: Seq<usize>, v: VocabModel) -> nat
    decreases s.len(),
{
    match merge_pass(s, v) {
        Some((s2, v2)) => if s2.len() < s.len() {
            1 + pass_count(s2, v2)
        } else {
            0
        },
        None => 0,
    }
}

/// Replaces each non-overlapping occurrence of the pair `(a, b)`, scanning left to right,
/// with the symbol `k`.
pub fn merge_pair(s: &Vec<usize>, a: usize, b: usize, k: usize) -> (r: Vec<usize>)
    ensures
        r@ == replace_pair(s@, a, b, k),
{
    let n = s.len();
    let mut out: Vec<usize> = Vec::new();
    let mut i: usize = 0;
    assert(s@.subrange(0, n as int) =~= s@);
    assert(out@ + replace_pair(s@, a, b, k) =~= replace_pair(s@, a, b, k));
    while i < n
        invariant
            n == s@.len(),
            i <= n,
            out@ + replace_pair(s@.subrange(i as int, n as int), a, b, k) == replace_pair(
                s@,
                a,
                b,
                k,
            ),
        decreases n - i,
    {
        let ghost rest = s@.subrange(i as int, n as int);
        if i + 1 < n && s[i] == a && s[i + 1] == b {
            assert(rest.subrange(2, rest.len() as int) =~= s@.subrange(i + 2, n as int));
            assert(out@.push(k) + replace_pair(s@.subrange(i + 2, n as int), a, b, k) =~= out@
                + replace_pair(rest, a, b, k));
            out.push(k);
            i = i + 2;
        } else {
            if i + 1 < n {
                assert(rest.subrange(1, rest.len() as int) =~= s@.subrange(i + 1, n as int));
                assert(out@.push(s@[i as int]) + replace_pair(s@.subrange(i + 1, n as int), a, b, k)
                    =~= out@ + replace_pair(rest, a, b, k));
            } else {
                assert(s@.subrange(i + 1, n as int) =~= Seq::<usize>::empty());
                assert(out@.push(s@[i as int]) =~= out@ + rest);
            }
            out.push(s[i]);
            i = i + 1;
        }
    }
    assert(s@.subrange(n as int, n as int) =~= Seq::<usize>::empty());
    out
}

proof fn lemma_count_pos(s: Seq<usize>, p: (usize, usize), n: int)
    requires
        0 <= n <= s.len() - 1,
        count_upto(s, p, n) > 0,
    ensures
        exists|i: int| 0 <= i < n && pair_at(s, i) == p,
    decreases n,
{
    if pair_at(s, n - 1) != p {
        lemma_count_pos(s, p, n - 1);
    }
}

proof fn lemma_replace_len(s: Seq<usize>, a: usize, b: usize, k: usize)
    ensures
        replace_pair(s, a, b, k).len() <= s.len(),
        (exists|i: int| 0 <= i < s.len() - 1 && pair_at(s, i) == (a, b)) ==> replace_pair(
            s,
            a,
            b,
            k,
        ).len() < s.len(),
    decreases s.len(),
{
    if s.len() >= 2 {
        if s[0] == a && s[1] == b {
            lemma_replace_len(s.subrange(2, s.len() as int), a, b, k);
        } else {
            let t = s.subrange(1, s.len() as int);
            lemma_replace_len(t, a, b, k);
            if exists|i: int| 0 <= i < s.len() - 1 && pair_at(s, i) == (a, b) {
                let i = choose|i: int| 0 <= i < s.len() - 1 && pair_at(s, i) == (a, b);
                assert(i > 0);
                assert(pair_at(t, i - 1) == (a, b));
            }
        }
    }
}

proof fn lemma_replace_valid(s: Seq<usize>, a: usize, b: usize, k: usize, v: VocabModel)
    requires
        valid_ids(s, v),
        k < v.tokens.len(),
    ensures
        valid_ids(replace_pair(s, a, b, k), v),
    decreases s.len(),
{
    if s.len() >= 2 {
        if s[0] == a && s[1] == b {
            let t = s.subrange(2, s.len() as int);
            lemma_replace_valid(t, a, b, k, v);
            assert(replace_pair(s, a, b, k) == seq![k] + replace_pair(t, a, b, k));
            assert forall|i: int| 0 <= i < replace_pair(s, a, b, k).len() implies
                #[trigger] replace_pair(s, a, b, k)[i] < v.tokens.len() by {
                if i > 0 {
                    assert(replace_pair(s, a, b, k)[i] == replace_pair(t, a, b, k)[i - 1]);
                }
            }
        } else {
            let t = s.subrange(1, s.len() as int);
            lemma_replace_valid(t, a, b, k, v);
            assert(replace_pair(s, a, b, k) == seq![s[0]] + replace_pair(t, a, b, k));
            assert forall|i: int| 0 <= i < replace_pair(s, a, b, k).len() implies
                #[trigger] replace_pair(s, a, b, k)[i] < v.tokens.len() by {
                if i > 0 {
                    assert(replace_pair(s, a, b, k)[i] == replace_pair(t, a, b, k)[i - 1]);
                }
            }
        }
    }
}

/// A pass that does not stop training merges at least once, so the sequence gets strictly
/// shorter; its ids stay assigned and the vocabulary stays well formed.
pub proof fn lemma_pass_shrinks(s: Seq<usize>, v: VocabModel)
    requires
        v.wf(),
        valid_ids(s, v),
    ensures
        merge_pass(s, v) matches Some((s2, v2)) ==> s2.len() < s.len() && v2.wf() && valid_ids(
            s2,
            v2,
        ) && v2.cap == v.cap && v2.token_size == v.token_size,
{
    if let Some((s2, v2)) = merge_pass(s, v) {
        let w = winner(s);
        let t = v.tokens[w.0 as int] + v.tokens[w.1 as int];
        lemma_insert_keeps(v, t);
        let k = v2.id_of(t) as usize;
        lemma_count_pos(s, w, s.len() - 1);
        lemma_replace_len(s, w.0, w.1, k);
        assert(valid_ids(s, v2));
        lemma_replace_valid(s, w.0, w.1, k, v2);
    }
}

/// Training stops after at most as many sequence-changing passes as the input has symbols.
pub proof fn lemma_training_terminates(s: Seq<usize>, v: VocabModel)
    requires
        v.wf(),
        valid_ids(s, v),
    ensures
        pass_count(s, v) <= s.len(),
    decreases s.len(),
{
    lemma_pass_shrinks(s, v);
    if let Some((s2, v2)) = merge_pass(s, v) {
        lemma_training_terminates(s2, v2);
    }
}

/// Runs merge passes on `buf`, growing `vocab`, until training stops; returns the final
/// sequence.
pub fn bpe(buf: &Vec<usize>, vocab: &mut Vocabulary) -> (r: Vec<usize>)
    requires
        old(vocab)@.wf(),
        valid_ids(buf@, old(vocab)@),
    ensures
        (r@, final(vocab)@) == converge(buf@, old(vocab)@),
        final(vocab)@.wf(),
{
    let mut cur: Vec<usize> = buf.clone();
    assert(cur@ =~= buf@);
    loop
        invariant
            vocab@.wf(),
            valid_ids(cur@, vocab@),
            converge(cur@, vocab@) == converge(buf@, old(vocab)@),
        decreases cur@.len(),
    {
        proof {
            lemma_pass_shrinks(cur@, vocab@);
        }
        if vocab.len() == vocab.capacity() {
            return cur;
        }
        let n = cur.len();
        let (w, c) = match max_pair(&cur) {
            Some(found) => found,
            None => {
                return cur;
            },
        };
        proof {
            let j = choose|j: int| is_winner_pos(cur@, j);
            assert(cur@[j] < vocab@.tokens.len());
            assert(cur@[j + 1] < vocab@.tokens.len());
            lemma_count_upto_bound(cur@, w, cur@.len() - 1);
            assert(c == pair_count(cur@, w));
        }
        if c < 2 {
            assert(merge_pass(cur@, vocab@) is None);
            return cur;
        }
        let left = vocab.get_reverse(&w.0);
        let right = vocab.get_reverse(&w.1);
        let token = left.concat(right.as_str());
        if char_count(&token) >= vocab.max_token_length() {
            return cur;
        }
        let ghost v0 = vocab@;
        proof {
            lemma_insert_keeps(v0, token@);
        }
        vocab.insert(token.clone());
        let k = match vocab.get(&token) {
            Some(k) => k,
            None => {
                // not reached: the vocabulary had room for the token
                return cur;
            },
        };
        let next = merge_pair(&cur, w.0, w.1, k);
        // a pass that does not shorten the sequence ends training
        if next.len() >= n {
            return cur;
        }
        cur = next;
    }
}

/// Relies on `str::chars` and `Iterator::count`: the number of characters of `s`.
#[verifier::external_body]
fn char_count(s: &String) -> (r: usize)
    ensures
        r == s@.len(),
{
    s.chars().count()
}

/// Why training could not start.
#[derive(Debug, Clone, Copy, PartialEq, Eq, Structural)]
pub enum LookupError {
    /// An initial symbol did not fit in the vocabulary, whose capacity is smaller than the
    /// number of distinct initial symbols.
    SymbolMissing,
}

/// The id of each token in `v`.
pub open spec fn encode(v: VocabModel, ts: Seq<Seq<char>>) -> Seq<usize> {
    Seq::new(ts.len(), |i: int| v.id_of(ts[i]) as usize)
}

/// The vocabulary after inserting each initial symbol, in order, into an empty one.
pub open spec fn initial_vocab(syms: Seq<String>, capacity: usize, max_token_length: usize) -> VocabModel {
    VocabModel::empty(capacity as nat, max_token_length as nat).insert_all(views(syms))
}

/// Trains a vocabulary on `initial_symbols`: inserts each into a fresh vocabulary, encodes
/// them as ids, and runs merge passes until training stops. Fails when some initial symbol
/// found no room in the vocabulary.
pub fn train(initial_symbols: &Vec<String>, capacity: usize, max_token_length: usize) -> (r:
    Result<(Vocabulary, Vec<usize>), LookupError>)
    ensures
        r is Ok <==> forall|i: int|
            0 <= i < initial_symbols@.len() ==> initial_vocab(
                initial_symbols@,
                capacity,
                max_token_length,
            ).contains(#[trigger] initial_symbols@[i]@),
        r matches Ok((v, s)) ==> (s@, v@) == converge(
            encode(
                initial_vocab(initial_symbols@, capacity, max_token_length),
                views(initial_symbols@),
            ),
            initial_vocab(initial_symbols@, capacity, max_token_length),
        ),
        r matches Ok((v, s)) ==> v@.wf(),
{
    let ghost syms = views(initial_symbols@);
    let ghost m0 = VocabModel::empty(capacity as nat, max_token_length as nat);
    let mut vocab = Vocabulary::new(capacity, max_token_length);
    let n = initial_symbols.len();
    let mut i: usize = 0;
    assert(syms.take(0) =~= Seq::<Seq<char>>::empty());
    while i < n
        invariant
            n == initial_symbols@.len(),
            syms == views(initial_symbols@),
            i <= n,
            vocab@.wf(),
            vocab@ == m0.insert_all(syms.take(i as int)),
        decreases n - i,
    {
        assert(syms.take(i + 1).drop_last() =~= syms.take(i as int));
        vocab.insert(initial_symbols[i].clone());
        i = i + 1;
    }
    assert(syms.take(n as int) =~= syms);
    let ghost v0 = vocab@;
    assert(v0 == initial_vocab(initial_symbols@, capacity, max_token_length));
    let mut ids: Vec<usize> = Vec::new();
    let mut j: usize = 0;
    while j < n
        invariant
            n == initial_symbols@.len(),
            syms == views(initial_symbols@),
            j <= n,
            vocab@ == v0,
            v0 == initial_vocab(initial_symbols@, capacity, max_token_length),
            v0.wf(),
            ids@.len() == j,
            forall|q: int| 0 <= q < j ==> v0.contains(#[trigger] syms[q]),
            forall|q: int| 0 <= q < j ==> #[trigger] ids@[q] == v0.id_of(syms[q]) as usize,
            valid_ids(ids@, v0),
        decreases n - j,
    {
        match vocab.get(&initial_symbols[j]) {
            Some(id) => {
                ids.push(id);
            },
            None => {
                assert(!initial_vocab(initial_symbols@, capacity, max_token_length).contains(
                    initial_symbols@[j as int]@,
                ));
                return Err(LookupError::SymbolMissing);
            },
        }
        j = j + 1;
    }
    assert(ids@ =~= encode(v0, syms));
    assert forall|q: int| 0 <= q < n implies v0.contains(#[trigger] initial_symbols@[q]@) by {
        assert(syms[q] == initial_symbols@[q]@);
    }
    let out = bpe(&ids, &mut vocab);
    Ok((vocab, out))
}

} // verus!
