use vstd::prelude::*;

verus! {

/// Attributes attached to a known word: part-of-speech flags. The empty
/// value means "known to exist, no further data".
#[derive(Debug, Clone, Copy, PartialEq, Eq, Structural)]
pub struct WordMeta {
    /// The word can be used as a noun.
    pub noun: bool,
    /// The word can be used as a verb.
    pub verb: bool,
    /// The word can be used as an adjective.
    pub adjective: bool,
}

/// The metadata value that says only "this word exists".
pub open spec fn empty_meta() -> WordMeta {
    WordMeta { noun: false, verb: false, adjective: false }
}

impl Default for WordMeta {
    fn default() -> (d: WordMeta)
        ensures
            d == empty_meta(),
    {
        WordMeta { noun: false, verb: false, adjective: false }
    }
}

/// One dictionary layer: an ordered list of (word, metadata) entries.
/// Within a layer, the first entry for a word wins.
pub struct WordList {
    pub entries: Vec<(Vec<char>, WordMeta)>,
}

impl View for WordList {
    type V = Seq<(Seq<char>, WordMeta)>;

    open spec fn view(&self) -> Seq<(Seq<char>, WordMeta)> {
        self.entries@.map_values(|e: (Vec<char>, WordMeta)| (e.0@, e.1))
    }
}

/// Metadata of `w` in a single layer: the first entry whose word is `w`,
/// `None` when the layer does not know the word.
pub open spec fn lookup(entries: Seq<(Seq<char>, WordMeta)>, w: Seq<char>) -> Option<WordMeta>
    decreases entries.len(),
{
    if entries.len() == 0 {
        None
    } else if entries[0].0 == w {
        Some(entries[0].1)
    } else {
        lookup(entries.drop_first(), w)
    }
}

/// If no entry before index `i` matches `w` and entry `i` does, the layer
/// lookup returns entry `i`'s metadata.
pub proof fn lemma_lookup_at(entries: Seq<(Seq<char>, WordMeta)>, w: Seq<char>, i: int)
    requires
        0 <= i < entries.len(),
        entries[i].0 == w,
        forall|j: int| 0 <= j < i ==> (#[trigger] entries[j]).0 != w,
    ensures
        lookup(entries, w) == Some(entries[i].1),
    decreases i,
{
    if i > 0 {
        lemma_lookup_at(entries.drop_first(), w, i - 1);
    }
}

/// If no entry matches `w`, the layer lookup returns `None`.
pub proof fn lemma_lookup_none(entries: Seq<(Seq<char>, WordMeta)>, w: Seq<char>)
    requires
        forall|j: int| 0 <= j < entries.len() ==> (#[trigger] entries[j]).0 != w,
    ensures
        lookup(entries, w) is None,
    decreases entries.len(),
{
    if entries.len() > 0 {
        lemma_lookup_none(entries.drop_first(), w);
    }
}

/// Word equality, character by character.
fn chars_eq(a: &Vec<char>, b: &Vec<char>) -> (r: bool)
    ensures
        r == (a@ == b@),
{
    if a.len() != b.len() {
        assert(a@ != b@);
        return false;
    }
    let mut i: usize = 0;
    while i < a.len()
        invariant
            i <= a.len(),
            a@.len() == b@.len(),
            forall|j: int| 0 <= j < i ==> a@[j] == b@[j],
        decreases a.len() - i,
    {
        if a[i] != b[i] {
            return false;
        }
        i += 1;
    }
    proof {
        assert(a@ =~= b@);
    }
    true
}

impl WordList {
    /// An empty layer.
    pub fn new() -> (r: WordList)
        ensures
            r@ == Seq::<(Seq<char>, WordMeta)>::empty(),
    {
        let r = WordList { entries: Vec::new() };
        proof {
            assert(r@ =~= Seq::<(Seq<char>, WordMeta)>::empty());
        }
        r
    }

    /// Append one (word, metadata) entry.
    pub fn add_word(&mut self, word: Vec<char>, meta: WordMeta)
        ensures
            final(self)@ == old(self)@.push((word@, meta)),
    {
        let ghost before = self@;
        let ghost w = word@;
        self.entries.push((word, meta));
        proof {
            assert(self@ =~= before.push((w, meta)));
        }
    }

    /// Build a layer from bare words, each carrying the empty metadata.
    pub fn from_words(words: Vec<Vec<char>>) -> (r: WordList)
        ensures
            r@ == words@.map_values(|v: Vec<char>| (v@, empty_meta())),
    {
        let ghost full = words@;
        let ghost target = full.map_values(|v: Vec<char>| (v@, empty_meta()));
        let mut r = WordList::new();
        let mut rest = words;
        proof {
            assert(rest@ =~= full.skip(0));
            assert(r@ =~= target.take(0));
        }
        while rest.len() > 0
            invariant
                rest@.len() <= full.len(),
                target == full.map_values(|v: Vec<char>| (v@, empty_meta())),
                rest@ == full.skip(full.len() - rest@.len()),
                r@ == target.take(full.len() - rest@.len()),
            decreases rest.len(),
        {
            let ghost done = full.len() - rest@.len();
            let w = rest.remove(0);
            proof {
                assert(w@ == full[done]@);
                assert(rest@ =~= full.skip(done + 1));
            }
            r.add_word(w, WordMeta { noun: false, verb: false, adjective: false });
            proof {
                assert(r@ =~= target.take(done + 1));
            }
        }
        proof {
            assert(r@ =~= target);
        }
        r
    }

    /// Whether the layer knows the word.
    pub fn contains(&self, word: &Vec<char>) -> (r: bool)
        ensures
            r == (lookup(self@, word@) is Some),
    {
        self.metadata(word).is_some()
    }

    /// The metadata of the first entry for `word`, if any.
    pub fn metadata(&self, word: &Vec<char>) -> (r: Option<WordMeta>)
        ensures
            r == lookup(self@, word@),
    {
        let mut i: usize = 0;
        while i < self.entries.len()
            invariant
                i <= self.entries@.len(),
                forall|j: int| 0 <= j < i ==> (#[trigger] self@[j]).0 != word@,
            decreases self.entries@.len() - i,
        {
            if chars_eq(&self.entries[i].0, word) {
                proof {
                    lemma_lookup_at(self@, word@, i as int);
                }
                return Some(self.entries[i].1);
            }
            i += 1;
        }
        proof {
            lemma_lookup_none(self@, word@);
        }
        None
    }
}

/// An ordered composition of dictionary layers. Queries walk the layers in
/// insertion order: the first layer that knows a word supplies its
/// metadata, while membership is the union over all layers.
pub struct MergedDictionary {
    pub layers: Vec<WordList>,
}

impl View for MergedDictionary {
    type V = Seq<Seq<(Seq<char>, WordMeta)>>;

    open spec fn view(&self) -> Seq<Seq<(Seq<char>, WordMeta)>> {
        self.layers@.map_values(|l: WordList| l@)
    }
}

/// Metadata of `w` across the layers: the first layer (in insertion order)
/// that knows `w` wins; `None` when no layer knows it.
pub open spec fn merged_lookup(
    layers: Seq<Seq<(Seq<char>, WordMeta)>>,
    w: Seq<char>,
) -> Option<WordMeta>
    decreases layers.len(),
{
    if layers.len() == 0 {
        None
    } else if lookup(layers[0], w) is Some {
        lookup(layers[0], w)
    } else {
        merged_lookup(layers.drop_first(), w)
    }
}

/// Membership across the layers: known anywhere.
pub open spec fn merged_contains(layers: Seq<Seq<(Seq<char>, WordMeta)>>, w: Seq<char>) -> bool {
    exists|i: int| 0 <= i < layers.len() && lookup(#[trigger] layers[i], w) is Some
}

/// If no layer before index `i` knows `w` and layer `i` does, the merged
/// lookup returns layer `i`'s metadata for `w`.
pub proof fn lemma_merged_lookup_at(layers: Seq<Seq<(Seq<char>, WordMeta)>>, w: Seq<char>, i: int)
    requires
        0 <= i < layers.len(),
        lookup(layers[i], w) is Some,
        forall|j: int| 0 <= j < i ==> lookup(#[trigger] layers[j], w) is None,
    ensures
        merged_lookup(layers, w) == lookup(layers[i], w),
    decreases i,
{
    if i > 0 {
        lemma_merged_lookup_at(layers.drop_first(), w, i - 1);
    }
}

/// If no layer knows `w`, the merged lookup returns `None`.
pub proof fn lemma_merged_lookup_none(layers: Seq<Seq<(Seq<char>, WordMeta)>>, w: Seq<char>)
    requires
        forall|j: int| 0 <= j < layers.len() ==> lookup(#[trigger] layers[j], w) is None,
    ensures
        merged_lookup(layers, w) is None,
    decreases layers.len(),
{
    if layers.len() > 0 {
        lemma_merged_lookup_none(layers.drop_first(), w);
    }
}

/// Law (precedence): when a word is known to both an earlier-added and a
/// later-added layer, and to no layer before the earlier one, the merged
/// metadata is the earlier layer's value — the later layer is masked.
pub proof fn lemma_layer_precedence(
    layers: Seq<Seq<(Seq<char>, WordMeta)>>,
    w: Seq<char>,
    i: int,
    j: int,
)
    requires
        0 <= i < j < layers.len(),
        lookup(layers[i], w) is Some,
        lookup(layers[j], w) is Some,
        forall|k: int| 0 <= k < i ==> lookup(#[trigger] layers[k], w) is None,
    ensures
        merged_lookup(layers, w) == lookup(layers[i], w),
{
    lemma_merged_lookup_at(layers, w, i);
}

/// Law (precedence, two layers): with exactly the layers `d1` then `d2`,
/// a word known to both gets `d1`'s metadata.
pub proof fn lemma_precedence_two_layers(
    d1: Seq<(Seq<char>, WordMeta)>,
    d2: Seq<(Seq<char>, WordMeta)>,
    w: Seq<char>,
)
    requires
        lookup(d1, w) is Some,
        lookup(d2, w) is Some,
    ensures
        merged_lookup(seq![d1, d2], w) == lookup(d1, w),
{
    lemma_merged_lookup_at(seq![d1, d2], w, 0);
}

/// Law (union membership): the merged lookup answers `Some` exactly when
/// some layer, in any position, knows the word.
pub proof fn lemma_union_membership(layers: Seq<Seq<(Seq<char>, WordMeta)>>, w: Seq<char>)
    ensures
        (merged_lookup(layers, w) is Some) == merged_contains(layers, w),
    decreases layers.len(),
{
    if layers.len() == 0 {
    } else if lookup(layers[0], w) is Some {
        assert(merged_contains(layers, w));
    } else {
        lemma_union_membership(layers.drop_first(), w);
        if merged_lookup(layers, w) is Some {
            let k = choose|k: int|
                0 <= k < layers.drop_first().len() && lookup(
                    #[trigger] layers.drop_first()[k],
                    w,
                ) is Some;
            assert(lookup(layers[k + 1], w) is Some);
        }
        if merged_contains(layers, w) {
            let k = choose|k: int| 0 <= k < layers.len() && lookup(#[trigger] layers[k], w) is Some;
            assert(k > 0);
            assert(lookup(layers.drop_first()[k - 1], w) is Some);
            assert(merged_contains(layers.drop_first(), w));
        }
    }
}

impl MergedDictionary {
    /// An empty composition, with no layers.
    pub fn new() -> (r: MergedDictionary)
        ensures
            r@ == Seq::<Seq<(Seq<char>, WordMeta)>>::empty(),
    {
        let r = MergedDictionary { layers: Vec::new() };
        proof {
            assert(r@ =~= Seq::<Seq<(Seq<char>, WordMeta)>>::empty());
        }
        r
    }

    /// Append a layer. Later layers have lower precedence for metadata;
    /// membership is the union.
    pub fn add_dictionary(&mut self, d: WordList)
        ensures
            final(self)@ == old(self)@.push(d@),
    {
        let ghost before = self@;
        let ghost dv = d@;
        self.layers.push(d);
        proof {
            assert(self@ =~= before.push(dv));
        }
    }

    /// Whether any layer knows the word.
    pub fn contains(&self, word: &Vec<char>) -> (r: bool)
        ensures
            r == merged_contains(self@, word@),
    {
        let mut i: usize = 0;
        while i < self.layers.len()
            invariant
                i <= self.layers@.len(),
                forall|j: int| 0 <= j < i ==> lookup(#[trigger] self@[j], word@) is None,
            decreases self.layers@.len() - i,
        {
            if self.layers[i].contains(word) {
                assert(lookup(self@[i as int], word@) is Some);
                return true;
            }
            i += 1;
        }
        false
    }

    /// The metadata from the first layer that knows the word, `None` when
    /// no layer does.
    pub fn metadata(&self, word: &Vec<char>) -> (r: Option<WordMeta>)
        ensures
            r == merged_lookup(self@, word@),
    {
        let mut i: usize = 0;
        while i < self.layers.len()
            invariant
                i <= self.layers@.len(),
                forall|j: int| 0 <= j < i ==> lookup(#[trigger] self@[j], word@) is None,
            decreases self.layers@.len() - i,
        {
            let m = self.layers[i].metadata(word);
            if m.is_some() {
                proof {
                    lemma_merged_lookup_at(self@, word@, i as int);
                }
                return m;
            }
            i += 1;
        }
        proof {
            lemma_merged_lookup_none(self@, word@);
        }
        None
    }
}

} // verus!
