use vstd::prelude::*;

use crate::diag::{all_proper, all_wf, non_overlapping, views_of, Diag, LintError, SpanViolation};
use crate::dict::{empty_meta, MergedDictionary, WordList, WordMeta};
use crate::group::{concat_outputs, outputs_views};
use crate::resolve::{resolve_overlaps, resolve_spec};
use vstd::string::StrSliceExecFns;

verus! {

/// Regional dialect selector.
#[derive(Debug, Clone, Copy, PartialEq, Eq, Structural)]
pub enum Dialect {
    American,
    British,
}

/// The dialect a configuration string selects: "British" selects British;
/// any other value, recognized or not, falls back to American.
pub open spec fn dialect_of(s: Seq<char>) -> Dialect {
    if s == "British"@ {
        Dialect::British
    } else {
        Dialect::American
    }
}

/// Parse a dialect name. Unrecognized names never fail construction: they
/// silently fall back to American.
pub fn parse_dialect(s: &str) -> (d: Dialect)
    ensures
        d == dialect_of(s@),
{
    let owned: String = s.to_owned();
    let target: String = "British".to_owned();
    if owned == target {
        Dialect::British
    } else {
        Dialect::American
    }
}

/// The characters of a string, in order.
pub fn chars_of(s: &str) -> (r: Vec<char>)
    ensures
        r@ == s@,
{
    let n = s.unicode_len();
    let mut r: Vec<char> = Vec::new();
    let mut i: usize = 0;
    while i < n
        invariant
            n as nat == s@.len(),
            i <= n,
            r@ == s@.subrange(0, i as int),
        decreases n - i,
    {
        let c = s.get_char(i);
        r.push(c);
        proof {
            assert(r@ =~= s@.subrange(0, i + 1));
        }
        i += 1;
    }
    proof {
        assert(r@ =~= s@);
    }
    r
}

/// The word sequences of a list of strings.
pub open spec fn words_view(ws: Seq<String>) -> Seq<Seq<char>> {
    ws.map_values(|s: String| s@)
}

/// Build the user dictionary layer: one entry per supplied word, each
/// carrying the empty metadata.
pub fn user_word_list(ws: Vec<String>) -> (wl: WordList)
    ensures
        wl@ == words_view(ws@).map_values(|w: Seq<char>| (w, empty_meta())),
{
    let ghost full = ws@;
    let ghost target = words_view(full).map_values(|w: Seq<char>| (w, empty_meta()));
    let mut wl = WordList::new();
    let mut rest = ws;
    proof {
        assert(rest@ =~= full.skip(0));
        assert(wl@ =~= target.take(0));
    }
    while rest.len() > 0
        invariant
            rest@.len() <= full.len(),
            target == words_view(full).map_values(|w: Seq<char>| (w, empty_meta())),
            rest@ == full.skip(full.len() - rest@.len()),
            wl@ == target.take(full.len() - rest@.len()),
        decreases rest.len(),
    {
        let ghost done = full.len() - rest@.len();
        let s = rest.remove(0);
        proof {
            assert(rest@ =~= full.skip(done + 1));
            assert(s == full[done]);
            assert(words_view(full)[done] == full[done]@);
            assert(target[done] == (full[done]@, empty_meta()));
        }
        let word = chars_of(s.as_str());
        let meta = WordMeta { noun: false, verb: false, adjective: false };
        wl.add_word(word, meta);
        proof {
            assert(wl@ =~= target.take(done + 1));
        }
    }
    proof {
        assert(wl@ =~= target);
    }
    wl
}

/// The dictionary layout after engine construction: the curated layer
/// first, then one layer of the user's words when a user word list was
/// supplied — so curated metadata always wins for words known to both.
pub open spec fn layers_after_new(
    curated: Seq<(Seq<char>, WordMeta)>,
    user: Option<Seq<Seq<char>>>,
) -> Seq<Seq<(Seq<char>, WordMeta)>> {
    match user {
        Option::None => seq![curated],
        Option::Some(ws) => seq![curated, ws.map_values(|w: Seq<char>| (w, empty_meta()))],
    }
}

/// The raw, pre-resolution diagnostic sequence of one call: every rule's
/// findings concatenated in registration order; the empty text has none.
pub open spec fn raw_spec(text: Seq<char>, outputs: Seq<Seq<Diag>>) -> Seq<Diag> {
    if text.len() == 0 {
        Seq::<Diag>::empty()
    } else {
        outputs.flatten()
    }
}

/// The raw diagnostic count of one call, before overlap resolution.
pub open spec fn count_spec(text: Seq<char>, outputs: Seq<Seq<Diag>>) -> nat {
    raw_spec(text, outputs).len()
}

/// Whether one call found any issue at all, before overlap resolution.
pub open spec fn has_spec(text: Seq<char>, outputs: Seq<Seq<Diag>>) -> bool {
    count_spec(text, outputs) > 0
}

/// The caller-facing diagnostic sequence of one call: the raw union,
/// collapsed to non-overlapping spans.
pub open spec fn lint_spec(text: Seq<char>, outputs: Seq<Seq<Diag>>) -> Seq<Diag> {
    if text.len() == 0 {
        Seq::<Diag>::empty()
    } else {
        resolve_spec(outputs.flatten())
    }
}

/// There is a span violation at index `i` of the raw sequence, and none
/// before it.
pub open spec fn first_violation_at(
    flat: Seq<Diag>,
    text_len: nat,
    i: int,
    v: SpanViolation,
) -> bool {
    &&& 0 <= i < flat.len()
    &&& !flat[i].wf(text_len)
    &&& v.start as nat == flat[i].start
    &&& v.end as nat == flat[i].end
    &&& v.text_len as nat == text_len
    &&& forall|j: int| 0 <= j < i ==> (#[trigger] flat[j]).wf(text_len)
}

/// Some index of the raw sequence holds the first span violation, and `v`
/// reports it.
pub open spec fn has_first_violation(flat: Seq<Diag>, text_len: nat, v: SpanViolation) -> bool {
    exists|i: int| first_violation_at(flat, text_len, i, v)
}

/// The long-lived engine facade. It owns the merged dictionary and the
/// dialect for its lifetime; each call hands it the per-rule scanner
/// outputs for one text and gets the aggregated answer back.
pub struct HarperLinter {
    /// The layered word knowledge base: curated layer first, then the
    /// optional user-supplied layer.
    pub dictionary: MergedDictionary,
    /// The regional dialect the engine was configured with.
    pub dialect: Dialect,
}

impl HarperLinter {
    /// Build an engine: the curated dictionary becomes the first layer;
    /// a user word list, when supplied, becomes a second, lower-precedence
    /// layer; the dialect string falls back to American when unrecognized.
    pub fn new(curated: WordList, user_words: Option<Vec<String>>, dialect: &str) -> (r:
        HarperLinter)
        ensures
            r.dialect == dialect_of(dialect@),
            user_words is None ==> r.dictionary@ == layers_after_new(curated@, Option::None),
            user_words matches Some(ws) ==> r.dictionary@ == layers_after_new(
                curated@,
                Option::Some(words_view(ws@)),
            ),
    {
        let d = parse_dialect(dialect);
        let ghost curated_view = curated@;
        let mut dict = MergedDictionary::new();
        dict.add_dictionary(curated);
        proof {
            assert(dict@ =~= seq![curated_view]);
        }
        match user_words {
            Option::None => {},
            Option::Some(ws) => {
                let wl = user_word_list(ws);
                dict.add_dictionary(wl);
                proof {
                    assert(dict@ =~= seq![
                        curated_view,
                        words_view(ws@).map_values(|w: Seq<char>| (w, empty_meta())),
                    ]);
                }
            },
        }
        HarperLinter { dictionary: dict, dialect: d }
    }

    /// Count the raw diagnostics of one call: everything the rules found,
    /// before overlap resolution — so this count may exceed the length of
    /// what `lint` returns.
    pub fn count_errors(&self, text: &str, rule_outputs: Vec<Vec<LintError>>) -> (n: usize)
        ensures
            n as nat == count_spec(text@, outputs_views(rule_outputs@)),
    {
        if text.is_empty() {
            0
        } else {
            let flat = concat_outputs(rule_outputs);
            flat.len()
        }
    }

    /// Whether the rules found any issue at all, judged on the raw,
    /// pre-resolution set. Stops at the first rule that found something:
    /// no count is materialized.
    pub fn has_errors(&self, text: &str, rule_outputs: &Vec<Vec<LintError>>) -> (r: bool)
        ensures
            r == has_spec(text@, outputs_views(rule_outputs@)),
    {
        if text.is_empty() {
            return false;
        }
        let mut i: usize = 0;
        while i < rule_outputs.len()
            invariant
                i <= rule_outputs@.len(),
                text@.len() > 0,
                forall|j: int|
                    0 <= j < i ==> (#[trigger] outputs_views(rule_outputs@)[j]).len() == 0,
            decreases rule_outputs@.len() - i,
        {
            proof {
                assert(outputs_views(rule_outputs@)[i as int] == views_of(rule_outputs@[i as int]@));
            }
            if rule_outputs[i].len() > 0 {
                proof {
                    lemma_flatten_nonempty(outputs_views(rule_outputs@), i as int);
                }
                return true;
            }
            i += 1;
        }
        proof {
            lemma_flatten_all_empty(outputs_views(rule_outputs@));
        }
        false
    }

    /// The caller-facing result of one call: concatenate the rule outputs
    /// in registration order, reject any span that is not a valid interval
    /// inside the text (a rule bug, surfaced as a hard failure), and
    /// collapse the rest into non-overlapping diagnostics.
    pub fn lint(&self, text: &str, rule_outputs: Vec<Vec<LintError>>) -> (r: Result<
        Vec<LintError>,
        SpanViolation,
    >)
        ensures
            (match r {
                Result::Ok(out) => {
                    &&& views_of(out@) == lint_spec(text@, outputs_views(rule_outputs@))
                    &&& non_overlapping(views_of(out@))
                    &&& text@.len() > 0 ==> all_wf(
                        outputs_views(rule_outputs@).flatten(),
                        text@.len(),
                    )
                },
                Result::Err(v) => text@.len() > 0 && has_first_violation(
                    outputs_views(rule_outputs@).flatten(),
                    text@.len(),
                    v,
                ),
            }),
    {
        if text.is_empty() {
            let out: Vec<LintError> = Vec::new();
            proof {
                assert(views_of(out@) =~= Seq::<Diag>::empty());
            }
            return Ok(out);
        }
        let n = text.unicode_len();
        let flat = concat_outputs(rule_outputs);
        let mut i: usize = 0;
        while i < flat.len()
            invariant
                i <= flat@.len(),
                n as nat == text@.len(),
                text@.len() > 0,
                views_of(flat@) == outputs_views(rule_outputs@).flatten(),
                forall|j: int| 0 <= j < i ==> (#[trigger] views_of(flat@)[j]).wf(n as nat),
            decreases flat@.len() - i,
        {
            proof {
                assert(views_of(flat@)[i as int] == flat@[i as int]@);
            }
            if flat[i].start > flat[i].end || flat[i].end > n {
                let v = SpanViolation { start: flat[i].start, end: flat[i].end, text_len: n };
                proof {
                    assert(first_violation_at(views_of(flat@), text@.len(), i as int, v));
                    assert(first_violation_at(
                        outputs_views(rule_outputs@).flatten(),
                        text@.len(),
                        i as int,
                        v,
                    ));
                    assert(has_first_violation(
                        outputs_views(rule_outputs@).flatten(),
                        text@.len(),
                        v,
                    ));
                }
                return Err(v);
            }
            i += 1;
        }
        proof {
            assert(all_wf(views_of(flat@), text@.len()));
            assert(all_proper(views_of(flat@)));
        }
        let out = resolve_overlaps(flat);
        Ok(out)
    }
}

/// If some rule output is non-empty, the concatenation of all outputs is
/// non-empty.
proof fn lemma_flatten_nonempty(outputs: Seq<Seq<Diag>>, i: int)
    requires
        0 <= i < outputs.len(),
        outputs[i].len() > 0,
    ensures
        outputs.flatten().len() > 0,
    decreases i,
{
    if i == 0 {
        assert(outputs.flatten() == outputs[0] + outputs.drop_first().flatten());
    } else {
        lemma_flatten_nonempty(outputs.drop_first(), i - 1);
        assert(outputs.flatten() == outputs[0] + outputs.drop_first().flatten());
    }
}

/// If every rule output is empty, so is their concatenation.
proof fn lemma_flatten_all_empty(outputs: Seq<Seq<Diag>>)
    requires
        forall|j: int| 0 <= j < outputs.len() ==> (#[trigger] outputs[j]).len() == 0,
    ensures
        outputs.flatten().len() == 0,
    decreases outputs.len(),
{
    if outputs.len() > 0 {
        assert forall|j: int| 0 <= j < outputs.drop_first().len() implies (
        #[trigger] outputs.drop_first()[j]).len() == 0 by {
            assert(outputs[j + 1].len() == 0);
        }
        lemma_flatten_all_empty(outputs.drop_first());
        assert(outputs.flatten() == outputs[0] + outputs.drop_first().flatten());
    }
}

/// Law (count/has-errors consistency): for every text and every set of
/// rule outputs, "has any issues" agrees with "the raw count is positive".
pub proof fn lemma_count_has_errors_agree(text: Seq<char>, outputs: Seq<Seq<Diag>>)
    ensures
        has_spec(text, outputs) == (count_spec(text, outputs) > 0),
{
}

/// Law (determinism of a lint call): the result is a pure function of the
/// text and the rule outputs; two calls over equal inputs, with no state
/// change between them, yield equal results.
pub proof fn lemma_lint_deterministic(
    t1: Seq<char>,
    o1: Seq<Seq<Diag>>,
    t2: Seq<char>,
    o2: Seq<Seq<Diag>>,
)
    requires
        t1 == t2,
        o1 == o2,
    ensures
        lint_spec(t1, o1) == lint_spec(t2, o2),
        count_spec(t1, o1) == count_spec(t2, o2),
        has_spec(t1, o1) == has_spec(t2, o2),
{
}

/// Law (count versus shown): `count_errors` reports on the raw set, so it
/// may exceed — and never undershoots — the number of diagnostics `lint`
/// actually shows.
pub proof fn lemma_count_bounds_shown(text: Seq<char>, outputs: Seq<Seq<Diag>>)
    ensures
        lint_spec(text, outputs).len() <= count_spec(text, outputs),
{
    if text.len() > 0 {
        crate::resolve::lemma_resolve_len(outputs.flatten());
    }
}

/// Law (empty input): the empty text yields no diagnostics, a count of
/// zero and no error flag.
pub proof fn lemma_empty_text(outputs: Seq<Seq<Diag>>)
    ensures
        lint_spec(Seq::<char>::empty(), outputs) == Seq::<Diag>::empty(),
        count_spec(Seq::<char>::empty(), outputs) == 0,
        !has_spec(Seq::<char>::empty(), outputs),
{
}

} // verus!
