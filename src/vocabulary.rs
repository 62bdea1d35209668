use vstd::prelude::*;

verus! {

/// Abstract state of a vocabulary: the token of each assigned id, in id order.
pub ghost struct VocabModel {
    pub tokens: Seq<Seq<char>>,
    pub cap: nat,
    pub token_size: nat,
}

impl VocabModel {
    /// The empty vocabulary with the given limits.
    pub open spec fn empty(cap: nat, token_size: nat) -> VocabModel {
        VocabModel { tokens: Seq::empty(), cap, token_size }
    }

    /// No token appears under two ids, and the capacity is respected.
    pub open spec fn wf(self) -> bool {
        &&& self.tokens.len() <= self.cap
        &&& forall|i: int, j: int|
            0 <= i < j < self.tokens.len() ==> self.tokens[i] != self.tokens[j]
    }

    pub open spec fn is_full(self) -> bool {
        self.tokens.len() >= self.cap
    }

    pub open spec fn contains(self, t: Seq<char>) -> bool {
        exists|i: int| 0 <= i < self.tokens.len() && self.tokens[i] == t
    }

    /// The id under which `t` is stored (meaningful when `contains(t)`).
    pub open spec fn id_of(self, t: Seq<char>) -> int {
        choose|i: int| 0 <= i < self.tokens.len() && self.tokens[i] == t
    }

    /// Effect of inserting `t`: dropped when full or already present, else given the next id.
    pub open spec fn insert(self, t: Seq<char>) -> VocabModel {
        if self.is_full() || self.contains(t) {
            self
        } else {
            VocabModel { tokens: self.tokens.push(t), ..self }
        }
    }

    /// Effect of inserting each token of `ts` in order.
    pub open spec fn insert_all(self, ts: Seq<Seq<char>>) -> VocabModel
        decreases ts.len(),
    {
        if ts.len() == 0 {
            self
        } else {
            self.insert_all(ts.drop_last()).insert(ts.last())
        }
    }
}

/// The character sequences of a list of strings.
pub open spec fn views(ts: Seq<String>) -> Seq<Seq<char>> {
    ts.map_values(|t: String| t@)
}

/// A bounded symbol table: token strings with dense ids `0..len`, at most `capacity` of them.
pub struct Vocabulary {
    tokens: Vec<String>,
    cap: usize,
    token_size: usize,
}

impl View for Vocabulary {
    type V = VocabModel;

    closed spec fn view(&self) -> VocabModel {
        VocabModel {
            tokens: views(self.tokens@),
            cap: self.cap as nat,
            token_size: self.token_size as nat,
        }
    }
}

impl Vocabulary {
    /// An empty vocabulary holding at most `capacity` symbols, whose merged tokens must be
    /// shorter than `max_token_length` characters.
    pub fn new(capacity: usize, max_token_length: usize) -> (r: Vocabulary)
        ensures
            r@ == VocabModel::empty(capacity as nat, max_token_length as nat),
            r@.wf(),
    {
        let r = Vocabulary { tokens: Vec::new(), cap: capacity, token_size: max_token_length };
        assert(r@.tokens =~= Seq::<Seq<char>>::empty());
        r
    }

    /// Number of symbols assigned so far.
    pub fn len(&self) -> (r: usize)
        ensures
            r == self@.tokens.len(),
    {
        self.tokens.len()
    }

    pub fn capacity(&self) -> (r: usize)
        ensures
            r == self@.cap,
    {
        self.cap
    }

    pub fn max_token_length(&self) -> (r: usize)
        ensures
            r == self@.token_size,
    {
        self.token_size
    }

    /// The id of `key`, or `None` when it was never inserted.
    pub fn get(&self, key: &String) -> (r: Option<usize>)
        requires
            self@.wf(),
        ensures
            r is None <==> !self@.contains(key@),
            r matches Some(i) ==> i < self@.tokens.len() && self@.tokens[i as int] == key@
                && self@.id_of(key@) == i,
    {
        let mut i: usize = 0;
        while i < self.tokens.len()
            invariant
                i <= self.tokens@.len(),
                self@.wf(),
                forall|j: int| 0 <= j < i ==> self@.tokens[j] != key@,
            decreases self.tokens.len() - i,
        {
            if self.tokens[i].eq(key) {
                proof {
                    lemma_id_of(self@, i as int);
                }
                return Some(i);
            }
            i = i + 1;
        }
        None
    }

    /// The token of symbol `key`.
    pub fn get_reverse(&self, key: &usize) -> (r: String)
        requires
            *key < self@.tokens.len(),
        ensures
            r@ == self@.tokens[*key as int],
    {
        self.tokens[*key].clone()
    }

    /// Adds `key` under the next id, unless the vocabulary is full or already holds it.
    pub fn insert(&mut self, key: String)
        requires
            old(self)@.wf(),
        ensures
            final(self)@ == old(self)@.insert(key@),
            final(self)@.wf(),
    {
        if self.tokens.len() == self.cap {
            return;
        }
        match self.get(&key) {
            Some(_) => {},
            None => {
                let ghost k = key@;
                self.tokens.push(key);
                assert(self@.tokens =~= old(self)@.tokens.push(k));
            },
        }
    }

    /// Every token, indexed by its id.
    pub fn tokens(&self) -> (r: &Vec<String>)
        ensures
            views(r@) == self@.tokens,
    {
        &self.tokens
    }
}

/// In a well-formed vocabulary the id of the token at `i` is `i`.
pub proof fn lemma_id_of(m: VocabModel, i: int)
    requires
        m.wf(),
        0 <= i < m.tokens.len(),
    ensures
        m.contains(m.tokens[i]),
        m.id_of(m.tokens[i]) == i,
{
    let t = m.tokens[i];
    assert(m.contains(t));
    let j = m.id_of(t);
    if j < i {
        assert(m.tokens[j] != m.tokens[i]);
    } else if i < j {
        assert(m.tokens[i] != m.tokens[j]);
    }
}

/// Inserting keeps the vocabulary well formed, keeps every assigned id, and leaves the
/// inserted token present unless the vocabulary was full.
pub proof fn lemma_insert_keeps(m: VocabModel, t: Seq<char>)
    requires
        m.wf(),
    ensures
        m.insert(t).wf(),
        m.insert(t).cap == m.cap,
        m.insert(t).token_size == m.token_size,
        m.tokens.len() <= m.insert(t).tokens.len() <= m.tokens.len() + 1,
        forall|i: int| 0 <= i < m.tokens.len() ==> m.insert(t).tokens[i] == m.tokens[i],
        !m.is_full() ==> m.insert(t).contains(t) && m.insert(t).id_of(t) < m.insert(t).tokens.len(),
{
    let m2 = m.insert(t);
    if !m.is_full() {
        if m.contains(t) {
            let i = choose|i: int| 0 <= i < m.tokens.len() && m.tokens[i] == t;
            lemma_id_of(m, i);
        } else {
            assert(m2.tokens[m.tokens.len() as int] == t);
            lemma_id_of(m2, m.tokens.len() as int);
        }
    }
}

/// Forward and reverse lookup are inverse: each stored token maps to its own id, and the id
/// of each stored token maps back to that token.
pub proof fn lemma_lookup_inverse(m: VocabModel, t: Seq<char>)
    requires
        m.wf(),
    ensures
        forall|i: int|
            0 <= i < m.tokens.len() ==> m.contains(#[trigger] m.tokens[i]) && m.id_of(m.tokens[i])
                == i,
        m.contains(t) ==> 0 <= m.id_of(t) < m.tokens.len() && m.tokens[m.id_of(t)] == t,
{
    assert forall|i: int| 0 <= i < m.tokens.len() implies m.contains(#[trigger] m.tokens[i])
        && m.id_of(m.tokens[i]) == i by {
        lemma_id_of(m, i);
    }
}

/// Any sequence of insertions keeps the count within the capacity, and once the
/// vocabulary is full further insertions change nothing.
pub proof fn lemma_capacity_kept(m: VocabModel, ts: Seq<Seq<char>>)
    requires
        m.wf(),
    ensures
        m.insert_all(ts).wf(),
        m.insert_all(ts).tokens.len() <= m.cap,
        m.insert_all(ts).cap == m.cap,
        m.is_full() ==> m.insert_all(ts) == m,
    decreases ts.len(),
{
    if ts.len() > 0 {
        lemma_capacity_kept(m, ts.drop_last());
        lemma_insert_keeps(m.insert_all(ts.drop_last()), ts.last());
    }
}

/// Inserting a token a second time changes nothing.
pub proof fn lemma_insert_idempotent(m: VocabModel, t: Seq<char>)
    ensures
        m.insert(t).insert(t) == m.insert(t),
{
    let m2 = m.insert(t);
    if !m.is_full() && !m.contains(t) {
        assert(m2.tokens[m.tokens.len() as int] == t);
        assert(m2.contains(t));
    }
}

} // verus!
