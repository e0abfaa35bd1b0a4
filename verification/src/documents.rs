use vstd::prelude::*;

verus! {

/// The text of the first entry for `uri`.
pub open spec fn lookup(entries: Seq<(Seq<char>, Seq<char>)>, uri: Seq<char>) -> Option<Seq<char>>
    decreases entries.len(),
{
    if entries.len() == 0 {
        None
    } else if lookup(entries.drop_last(), uri) is Some {
        lookup(entries.drop_last(), uri)
    } else if entries.last().0 == uri {
        Some(entries.last().1)
    } else {
        None
    }
}

/// Pairs of strings as pairs of their characters.
pub open spec fn pair_models(v: Seq<(String, String)>) -> Seq<(Seq<char>, Seq<char>)> {
    Seq::new(v.len(), |i: int| (v[i].0@, v[i].1@))
}

/// The open documents of a language server session, by URI.
pub struct Documents {
    entries: Vec<(String, String)>,
}

impl Documents {
    /// The entries as plain values, in order.
    pub closed spec fn entry_models(&self) -> Seq<(Seq<char>, Seq<char>)> {
        pair_models(self.entries@)
    }
}

impl View for Documents {
    type V = Map<Seq<char>, Seq<char>>;

    /// The text of each open document, by URI.
    closed spec fn view(&self) -> Map<Seq<char>, Seq<char>> {
        Map::new(
            |uri: Seq<char>| lookup(self.entry_models(), uri) is Some,
            |uri: Seq<char>| lookup(self.entry_models(), uri)->0,
        )
    }
}

proof fn lemma_lookup_some(entries: Seq<(Seq<char>, Seq<char>)>, uri: Seq<char>)
    ensures
        lookup(entries, uri) is Some <==> exists|i: int| 0 <= i < entries.len() && entries[i].0 == uri,
    decreases entries.len(),
{
    if entries.len() > 0 {
        lemma_lookup_some(entries.drop_last(), uri);
        if lookup(entries.drop_last(), uri) is Some {
            let i = choose|i: int| 0 <= i < entries.drop_last().len() && entries.drop_last()[i].0 == uri;
            assert(entries[i].0 == uri);
        }
        if exists|i: int| 0 <= i < entries.len() && entries[i].0 == uri {
            let i = choose|i: int| 0 <= i < entries.len() && entries[i].0 == uri;
            if i < entries.len() - 1 {
                assert(entries.drop_last()[i].0 == uri);
            }
        }
    }
}

/// Changing the text of the first entry for `uri` changes what `uri` looks
/// up and nothing else.
proof fn lemma_lookup_update(entries: Seq<(Seq<char>, Seq<char>)>, i: int, uri: Seq<char>, text: Seq<char>)
    requires
        0 <= i < entries.len(),
        entries[i].0 == uri,
        forall|k: int| 0 <= k < i ==> entries[k].0 != uri,
    ensures
        forall|u: Seq<char>|
            #[trigger] lookup(entries.update(i, (uri, text)), u) == if u == uri {
                Some(text)
            } else {
                lookup(entries, u)
            },
    decreases entries.len(),
{
    let updated = entries.update(i, (uri, text));
    assert forall|u: Seq<char>| #[trigger] lookup(updated, u) == if u == uri {
        Some(text)
    } else {
        lookup(entries, u)
    } by {
        if i == entries.len() - 1 {
            assert(updated.drop_last() =~= entries.drop_last());
            if u == uri {
                lemma_lookup_some(entries.drop_last(), uri);
            }
        } else {
            lemma_lookup_update(entries.drop_last(), i, uri, text);
            assert(updated.drop_last() =~= entries.drop_last().update(i, (uri, text)));
            lemma_lookup_some(entries.drop_last(), uri);
            assert(entries.drop_last()[i].0 == uri);
            assert(lookup(entries.drop_last(), uri) is Some);
            assert(lookup(updated.drop_last(), u) == if u == uri {
                Some(text)
            } else {
                lookup(entries.drop_last(), u)
            });
        }
    }
}

/// An entry pushed at the end is found only where no earlier entry is.
proof fn lemma_lookup_push(entries: Seq<(Seq<char>, Seq<char>)>, uri: Seq<char>, text: Seq<char>)
    requires
        lookup(entries, uri) is None,
    ensures
        forall|u: Seq<char>|
            #[trigger] lookup(entries.push((uri, text)), u) == if u == uri {
                Some(text)
            } else {
                lookup(entries, u)
            },
{
    assert(entries.push((uri, text)).drop_last() =~= entries);
}

impl Documents {
    /// No documents.
    pub fn new() -> (r: Self)
        ensures
            r@ == Map::<Seq<char>, Seq<char>>::empty(),
    {
        let r = Documents { entries: Vec::new() };
        assert(r@ =~= Map::<Seq<char>, Seq<char>>::empty());
        r
    }

    /// The text of the document `uri`, if it is open.
    pub fn get(&self, uri: &String) -> (r: Option<&String>)
        ensures
            r is Some == self@.contains_key(uri@),
            r is Some ==> r->0@ == self@[uri@],
    {
        let ghost em = self.entry_models();
        let mut i: usize = 0;
        while i < self.entries.len()
            invariant
                i <= self.entries.len(),
                em == self.entry_models(),
                em.len() == self.entries.len(),
                forall|k: int| 0 <= k < i ==> em[k].0 != uri@,
            decreases self.entries.len() - i,
        {
            if self.entries[i].0 == *uri {
                proof {
                    lemma_lookup_first(em, uri@, i as int);
                }
                return Some(&self.entries[i].1);
            }
            i = i + 1;
        }
        proof {
            lemma_lookup_some(em, uri@);
        }
        None
    }

    /// Opens `uri` with `text`, or replaces its text.
    pub fn insert(&mut self, uri: String, text: String)
        ensures
            final(self)@ == old(self)@.insert(uri@, text@),
    {
        let ghost em = self.entry_models();
        let mut i: usize = 0;
        while i < self.entries.len()
            invariant
                i <= self.entries.len(),
                em == self.entry_models(),
                self.entries == old(self).entries,
                em.len() == self.entries.len(),
                forall|k: int| 0 <= k < i ==> em[k].0 != uri@,
            decreases self.entries.len() - i,
        {
            if self.entries[i].0 == uri {
                proof {
                    lemma_lookup_update(em, i as int, uri@, text@);
                }
                let ghost t = text@;
                let ghost u = uri@;
                self.entries.set(i, (uri, text));
                assert(self.entry_models() =~= em.update(i as int, (u, t)));
                assert(self@ =~= old(self)@.insert(u, t));
                return;
            }
            i = i + 1;
        }
        proof {
            lemma_lookup_some(em, uri@);
            lemma_lookup_push(em, uri@, text@);
        }
        let ghost t = text@;
        let ghost u = uri@;
        self.entries.push((uri, text));
        assert(self.entry_models() =~= em.push((u, t)));
        assert(self@ =~= old(self)@.insert(u, t));
    }

    /// Closes `uri`.
    pub fn remove(&mut self, uri: &String)
        ensures
            final(self)@ == old(self)@.remove(uri@),
    {
        let ghost em = self.entry_models();
        let mut kept: Vec<(String, String)> = Vec::new();
        let mut i: usize = 0;
        while i < self.entries.len()
            invariant
                i <= self.entries.len(),
                em == self.entry_models(),
                em.len() == self.entries.len(),
                forall|u: Seq<char>|
                    #[trigger] lookup(pair_models(kept@), u)
                        == if u == uri@ {
                        None
                    } else {
                        lookup(em.take(i as int), u)
                    },
            decreases self.entries.len() - i,
        {
            let ghost before = pair_models(kept@);
            proof {
                assert(em.take(i + 1).drop_last() =~= em.take(i as int));
            }
            if self.entries[i].0 != *uri {
                let entry = (self.entries[i].0.clone(), self.entries[i].1.clone());
                kept.push(entry);
                let ghost after = pair_models(kept@);
                assert(after.drop_last() =~= before);
                assert(after.last() == em[i as int]);
                assert forall|u: Seq<char>| #[trigger] lookup(pair_models(kept@), u) == if u == uri@ {
                    None
                } else {
                    lookup(em.take(i + 1), u)
                } by {
                    assert(lookup(before, u) == if u == uri@ {
                        None
                    } else {
                        lookup(em.take(i as int), u)
                    });
                }
            } else {
                assert forall|u: Seq<char>| #[trigger] lookup(pair_models(kept@), u) == if u == uri@ {
                    None
                } else {
                    lookup(em.take(i + 1), u)
                } by {
                    assert(lookup(before, u) == if u == uri@ {
                        None
                    } else {
                        lookup(em.take(i as int), u)
                    });
                }
            }
            i = i + 1;
        }
        assert(em.take(self.entries.len() as int) =~= em);
        self.entries = kept;
        assert(self@ =~= old(self)@.remove(uri@));
    }
}

proof fn lemma_lookup_first(entries: Seq<(Seq<char>, Seq<char>)>, uri: Seq<char>, i: int)
    requires
        0 <= i < entries.len(),
        entries[i].0 == uri,
        forall|k: int| 0 <= k < i ==> entries[k].0 != uri,
    ensures
        lookup(entries, uri) == Some(entries[i].1),
    decreases entries.len(),
{
    if i < entries.len() - 1 {
        lemma_lookup_first(entries.drop_last(), uri, i);
    } else {
        lemma_lookup_some(entries.drop_last(), uri);
    }
}

} // verus!
