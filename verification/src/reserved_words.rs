//! The table of reserved words that the lexer consults.
use crate::token::TokenType;
use vstd::prelude::*;

verus! {

/// A map from words to the token kinds they stand for.
///
/// It holds each word at most once.
pub struct ReservedWords {
    entries: Vec<(String, TokenType)>,
}

impl View for ReservedWords {
    type V = Map<Seq<char>, TokenType>;

    closed spec fn view(&self) -> Map<Seq<char>, TokenType> {
        Map::new(
            |word: Seq<char>| exists|i: int| #[trigger] self.holds_at(i, word),
            |word: Seq<char>| self.entries@[choose|i: int| #[trigger] self.holds_at(i, word)].1,
        )
    }
}

impl ReservedWords {
    /// Entry `i` holds `word`.
    closed spec fn holds_at(&self, i: int, word: Seq<char>) -> bool {
        0 <= i < self.entries@.len() && self.entries@[i].0@ == word
    }

    #[verifier::type_invariant]
    closed spec fn words_distinct(&self) -> bool {
        forall|i: int, j: int|
            0 <= i < self.entries@.len() && 0 <= j < self.entries@.len() && i != j
                ==> #[trigger] self.entries@[i].0@ != #[trigger] self.entries@[j].0@
    }

    proof fn lemma_entry(&self, i: int)
        requires
            self.words_distinct(),
            0 <= i < self.entries@.len(),
        ensures
            self@.contains_key(self.entries@[i].0@),
            self@[self.entries@[i].0@] == self.entries@[i].1,
    {
        let word = self.entries@[i].0@;
        assert(self.holds_at(i, word));
        let j = choose|j: int| #[trigger] self.holds_at(j, word);
        assert(self.holds_at(j, word));
    }

    /// An empty table.
    pub fn new() -> (words: Self)
        ensures
            words@ == Map::<Seq<char>, TokenType>::empty(),
    {
        let words = Self { entries: Vec::new() };
        assert(words@ =~= Map::<Seq<char>, TokenType>::empty());
        words
    }

    /// The position of `word` in the table, if it is there.
    fn position_of(&self, word: &String) -> (found: Option<usize>)
        ensures
            found matches Some(i) ==> i < self.entries@.len() && self.entries@[i as int].0@
                == word@,
            found is None ==> forall|i: int|
                0 <= i < self.entries@.len() ==> !(#[trigger] self.holds_at(i, word@)),
    {
        let mut i: usize = 0;
        while i < self.entries.len()
            invariant
                i <= self.entries@.len(),
                forall|j: int| 0 <= j < i ==> !(#[trigger] self.holds_at(j, word@)),
            decreases self.entries@.len() - i,
        {
            if self.entries[i].0 == *word {
                return Some(i);
            }
            i += 1;
        }
        None
    }

    /// The kind that `word` stands for, if it is in the table.
    pub fn get(&self, word: &str) -> (kind: Option<TokenType>)
        ensures
            kind == (if self@.contains_key(word@) {
                Some(self@[word@])
            } else {
                None
            }),
    {
        proof {
            use_type_invariant(self);
        }
        let word = word.to_owned();
        match self.position_of(&word) {
            Some(i) => {
                proof {
                    self.lemma_entry(i as int);
                }
                Some(self.entries[i].1)
            },
            None => None,
        }
    }

    /// Makes `word` stand for `kind`, in place of what it stood for before.
    pub fn insert(&mut self, word: &str, kind: TokenType)
        ensures
            final(self)@ == old(self)@.insert(word@, kind),
    {
        proof {
            use_type_invariant(&*self);
        }
        let word = word.to_owned();
        let ghost w = word@;
        let ghost before = *self;
        match self.position_of(&word) {
            Some(i) => {
                let mut entries = Vec::new();
                std::mem::swap(&mut entries, &mut self.entries);
                entries.set(i, (word, kind));
                self.entries = entries;
                proof {
                    assert forall|k: Seq<char>|
                        #![trigger self@.contains_key(k)]
                        self@.contains_key(k) == before@.insert(w, kind).contains_key(k)
                            && (self@.contains_key(k) ==> self@[k] == before@.insert(
                            w,
                            kind,
                        )[k]) by {
                        if k == w {
                            self.lemma_entry(i as int);
                        } else if before@.contains_key(k) {
                            let j = choose|j: int| #[trigger] before.holds_at(j, k);
                            before.lemma_entry(j);
                            self.lemma_entry(j);
                        } else if self@.contains_key(k) {
                            let j = choose|j: int| #[trigger] self.holds_at(j, k);
                            assert(before.holds_at(j, k));
                        }
                    }
                    assert(self@ =~= before@.insert(w, kind));
                }
            },
            None => {
                let mut entries = Vec::new();
                std::mem::swap(&mut entries, &mut self.entries);
                entries.push((word, kind));
                proof {
                    let n = before.entries@.len() as int;
                    assert(entries@[n].0@ == w);
                    assert forall|j: int| 0 <= j < n implies entries@[j].0@ != w by {
                        assert(entries@[j] == before.entries@[j]);
                        assert(!before.holds_at(j, w));
                    }
                }
                self.entries = entries;
                proof {
                    assert forall|k: Seq<char>|
                        #![trigger self@.contains_key(k)]
                        self@.contains_key(k) == before@.insert(w, kind).contains_key(k)
                            && (self@.contains_key(k) ==> self@[k] == before@.insert(
                            w,
                            kind,
                        )[k]) by {
                        let n = before.entries@.len() as int;
                        if k == w {
                            self.lemma_entry(n);
                        } else if before@.contains_key(k) {
                            let j = choose|j: int| #[trigger] before.holds_at(j, k);
                            before.lemma_entry(j);
                            self.lemma_entry(j);
                        } else if self@.contains_key(k) {
                            let j = choose|j: int| #[trigger] self.holds_at(j, k);
                            assert(before.holds_at(j, k));
                        }
                    }
                    assert(self@ =~= before@.insert(w, kind));
                }
            },
        }
    }
}

} // verus!
