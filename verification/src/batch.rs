//! Request shaping of the generic decision endpoints: the public query text
//! limits, and the single-pass layout of several questions over one state.
use vstd::prelude::*;
use vstd::string::{StringExecFns, StringSliceAdditionalSpecFns};
use crate::prompt::MAX_CLASSES;
use crate::text::{all_white, is_blank, str_eq};
use crate::types::{Error, MAX_STATE_BYTES};

verus! {

/// One decision's option list plus the abstention slot must fit 25 logit slots.
pub const MAX_OPTIONS: usize = 24;
/// The checkpoint's own abstention description.
pub const ABSTENTION_DESC: &'static str = "insufficient evidence";
/// The id of the abstention slot.
pub const ABSTENTION_ID: &'static str = "__insufficient_evidence__";
pub const MAX_PUBLIC_QUERY_TEXT_BYTES: usize = 16384;
pub const MAX_PUBLIC_QUERY_QUESTION_BYTES: usize = 4096;
pub const MAX_PUBLIC_QUERY_OPTION_BYTES: usize = 1024;
pub const MAX_PUBLIC_QUERY_ID_BYTES: usize = 128;

#[derive(Debug, Clone, PartialEq, Eq)]
pub struct OptionSpec {
    pub id: String,
    pub text: String,
}

#[derive(Debug, Clone, PartialEq, Eq)]
pub struct BatchQuestion {
    pub id: String,
    pub question: String,
    pub options: Vec<OptionSpec>,
    pub abstention: bool,
}

pub open spec fn blen(s: String) -> int {
    vstd::utf8::encode_utf8(s@).len() as int
}

/// Bytes of every option id and text.
pub open spec fn options_bytes(opts: Seq<OptionSpec>) -> int
    decreases opts.len(),
{
    if opts.len() == 0 {
        0
    } else {
        options_bytes(opts.drop_last()) + blen(opts.last().id) + blen(opts.last().text)
    }
}

/// The public query limits: question at most 4 KiB, each option id at most 128
/// bytes and text at most 1 KiB, and all text together at most 16 KiB.
pub open spec fn public_text_ok(state: Seq<u8>, question: Seq<u8>, opts: Seq<OptionSpec>) -> bool {
    &&& question.len() <= MAX_PUBLIC_QUERY_QUESTION_BYTES
    &&& forall|i: int|
        0 <= i < opts.len() ==> blen(#[trigger] opts[i].id) <= MAX_PUBLIC_QUERY_ID_BYTES && blen(
            opts[i].text,
        ) <= MAX_PUBLIC_QUERY_OPTION_BYTES
    &&& state.len() + question.len() + options_bytes(opts) <= MAX_PUBLIC_QUERY_TEXT_BYTES
}

/// Bounds public query text before any prompt construction; `TooLong` otherwise.
pub fn guard_public_query_text(state: &str, question: &str, options: &[OptionSpec]) -> (r: Result<
    (),
    Error,
>)
    ensures
        r is Ok <==> public_text_ok(state.spec_bytes(), question.spec_bytes(), options@),
        r matches Err(e) ==> e == Error::TooLong,
{
    let ql = question.as_bytes().len();
    if ql > MAX_PUBLIC_QUERY_QUESTION_BYTES {
        return Err(Error::TooLong);
    }
    let sl = state.as_bytes().len();
    if sl > MAX_PUBLIC_QUERY_TEXT_BYTES || sl + ql > MAX_PUBLIC_QUERY_TEXT_BYTES {
        proof {
            lemma_options_bytes_monotone(options@, 0);
        }
        return Err(Error::TooLong);
    }
    let mut total = sl + ql;
    let mut i: usize = 0;
    while i < options.len()
        invariant
            ql == question.spec_bytes().len() <= MAX_PUBLIC_QUERY_QUESTION_BYTES,
            sl == state.spec_bytes().len(),
            i <= options@.len(),
            total == sl + ql + options_bytes(options@.subrange(0, i as int)),
            total <= MAX_PUBLIC_QUERY_TEXT_BYTES,
            forall|j: int|
                0 <= j < i ==> blen(#[trigger] options@[j].id) <= MAX_PUBLIC_QUERY_ID_BYTES && blen(
                    options@[j].text,
                ) <= MAX_PUBLIC_QUERY_OPTION_BYTES,
        decreases options@.len() - i,
    {
        let il = options[i].id.as_str().as_bytes().len();
        let tl = options[i].text.as_str().as_bytes().len();
        assert(blen(options@[i as int].id) == il && blen(options@[i as int].text) == tl);
        if il > MAX_PUBLIC_QUERY_ID_BYTES || tl > MAX_PUBLIC_QUERY_OPTION_BYTES {
            return Err(Error::TooLong);
        }
        assert(options@.subrange(0, i + 1).drop_last() =~= options@.subrange(0, i as int));
        if total + il + tl > MAX_PUBLIC_QUERY_TEXT_BYTES {
            proof {
                lemma_options_bytes_monotone(options@, i + 1);
            }
            return Err(Error::TooLong);
        }
        total = total + il + tl;
        i = i + 1;
    }
    assert(options@.subrange(0, options@.len() as int) =~= options@);
    Ok(())
}

proof fn lemma_options_bytes_monotone(opts: Seq<OptionSpec>, k: int)
    requires
        0 <= k <= opts.len(),
    ensures
        options_bytes(opts.subrange(0, k)) <= options_bytes(opts),
    decreases opts.len() - k,
{
    if k < opts.len() {
        lemma_options_bytes_monotone(opts, k + 1);
        assert(opts.subrange(0, k + 1).drop_last() =~= opts.subrange(0, k));
    } else {
        assert(opts.subrange(0, k) =~= opts);
    }
}

/// Outcome of the layout checks.
#[derive(Debug, Clone, Copy, PartialEq, Eq)]
pub enum Check {
    Pass,
    Invalid,
    TooLong,
}

/// The ids of a question's options.
pub open spec fn option_ids(opts: Seq<OptionSpec>) -> Seq<Seq<char>> {
    Seq::new(opts.len(), |i: int| opts[i].id@)
}

/// The options are all named and described, with distinct ids, and none takes
/// the abstention id when the abstention slot is added.
pub open spec fn options_sound(q: BatchQuestion) -> bool {
    let o = q.options@;
    &&& forall|i: int| 0 <= i < o.len() ==> (#[trigger] o[i]).id@.len() > 0 && o[i].text@.len() > 0
    &&& forall|i: int, j: int| 0 <= i < j < o.len() ==> o[i].id@ != o[j].id@
    &&& q.abstention ==> forall|i: int| 0 <= i < o.len() ==> (#[trigger] o[i]).id@ != ABSTENTION_ID@
}

/// The check of one question, given the ids of the questions before it.
pub open spec fn question_check(q: BatchQuestion, prior: Seq<Seq<char>>) -> Check {
    if all_white(q.id@) || prior.contains(q.id@) {
        Check::Invalid
    } else if q.options@.len() == 0 || q.options@.len() > MAX_OPTIONS {
        Check::TooLong
    } else if !options_sound(q) {
        Check::Invalid
    } else {
        Check::Pass
    }
}

pub open spec fn question_ids(qs: Seq<BatchQuestion>) -> Seq<Seq<char>> {
    Seq::new(qs.len(), |i: int| qs[i].id@)
}

/// The first failing question decides; `Pass` when none fails.
pub open spec fn questions_check(qs: Seq<BatchQuestion>) -> Check
    decreases qs.len(),
{
    if qs.len() == 0 {
        Check::Pass
    } else {
        let c = questions_check(qs.drop_last());
        if c == Check::Pass {
            question_check(qs.last(), question_ids(qs.drop_last()))
        } else {
            c
        }
    }
}

/// Slot ids of one question: its option ids, then the abstention id.
pub open spec fn slot_ids(q: BatchQuestion) -> Seq<Seq<char>> {
    option_ids(q.options@) + if q.abstention { seq![ABSTENTION_ID@] } else { Seq::empty() }
}

/// Slot labels of one question: its option texts, then the abstention text.
pub open spec fn slot_labels(q: BatchQuestion) -> Seq<Seq<char>> {
    Seq::new(q.options@.len(), |i: int| q.options@[i].text@) + if q.abstention {
        seq![ABSTENTION_DESC@]
    } else {
        Seq::empty()
    }
}

pub open spec fn all_slot_ids(qs: Seq<BatchQuestion>) -> Seq<Seq<char>>
    decreases qs.len(),
{
    if qs.len() == 0 {
        Seq::empty()
    } else {
        all_slot_ids(qs.drop_last()) + slot_ids(qs.last())
    }
}

pub open spec fn all_slot_labels(qs: Seq<BatchQuestion>) -> Seq<Seq<char>>
    decreases qs.len(),
{
    if qs.len() == 0 {
        Seq::empty()
    } else {
        all_slot_labels(qs.drop_last()) + slot_labels(qs.last())
    }
}

pub open spec fn slot_counts(qs: Seq<BatchQuestion>) -> Seq<usize> {
    Seq::new(qs.len(), |i: int| slot_ids(qs[i]).len() as usize)
}

pub open spec fn views(v: Seq<String>) -> Seq<Seq<char>> {
    Seq::new(v.len(), |i: int| v[i]@)
}

pub open spec fn texts_of(o: Seq<OptionSpec>) -> Seq<Seq<char>> {
    Seq::new(o.len(), |i: int| o[i].text@)
}

fn push_question(q: &BatchQuestion, labels: &mut Vec<String>, ids: &mut Vec<String>) -> (n: usize)
    requires
        q.options@.len() <= MAX_OPTIONS,
    ensures
        views(final(labels)@) == views(old(labels)@) + slot_labels(*q),
        views(final(ids)@) == views(old(ids)@) + slot_ids(*q),
        n == slot_ids(*q).len(),
{
    let ghost l0 = views(labels@);
    let ghost i0 = views(ids@);
    let mut k: usize = 0;
    while k < q.options.len()
        invariant
            k <= q.options@.len() <= MAX_OPTIONS,
            views(labels@) == l0 + texts_of(q.options@.subrange(0, k as int)),
            views(ids@) == i0 + option_ids(q.options@.subrange(0, k as int)),
        decreases q.options@.len() - k,
    {
        let ghost lb = labels@;
        let ghost ib = ids@;
        let t = q.options[k].text.clone();
        let d = q.options[k].id.clone();
        labels.push(t);
        ids.push(d);
        assert(views(labels@) =~= views(lb).push(t@));
        assert(views(ids@) =~= views(ib).push(d@));
        assert(texts_of(q.options@.subrange(0, k + 1)) =~= texts_of(
            q.options@.subrange(0, k as int),
        ).push(t@));
        assert(option_ids(q.options@.subrange(0, k + 1)) =~= option_ids(
            q.options@.subrange(0, k as int),
        ).push(d@));
        k = k + 1;
    }
    assert(q.options@.subrange(0, q.options@.len() as int) =~= q.options@);
    if q.abstention {
        let ghost lb = labels@;
        let ghost ib = ids@;
        let t = String::from_str(ABSTENTION_DESC);
        let d = String::from_str(ABSTENTION_ID);
        labels.push(t);
        ids.push(d);
        assert(views(labels@) =~= views(lb).push(t@));
        assert(views(ids@) =~= views(ib).push(d@));
        k = k + 1;
    }
    assert(views(labels@) =~= l0 + slot_labels(*q));
    assert(views(ids@) =~= i0 + slot_ids(*q));
    k
}

fn check_options(q: &BatchQuestion) -> (ok: bool)
    ensures
        ok == options_sound(*q),
{
    let o = &q.options;
    let mut i: usize = 0;
    while i < o.len()
        invariant
            *o == q.options,
            i <= o@.len(),
            forall|a: int| 0 <= a < i ==> (#[trigger] o@[a]).id@.len() > 0 && o@[a].text@.len() > 0,
            forall|a: int, b: int| 0 <= a < b < i ==> o@[a].id@ != o@[b].id@,
            q.abstention ==> forall|a: int| 0 <= a < i ==> (#[trigger] o@[a]).id@ != ABSTENTION_ID@,
        decreases o@.len() - i,
    {
        if o[i].id.as_str().is_empty() || o[i].text.as_str().is_empty() {
            return false;
        }
        let mut j: usize = 0;
        while j < i
            invariant
                *o == q.options,
                i < o@.len(),
                j <= i,
                forall|a: int| 0 <= a < j ==> o@[a].id@ != o@[i as int].id@,
            decreases i - j,
        {
            if o[j].id == o[i].id {
                assert(o@[j as int].id@ == o@[i as int].id@);
                return false;
            }
            j = j + 1;
        }
        if q.abstention && str_eq(o[i].id.as_str(), ABSTENTION_ID) {
            return false;
        }
        i = i + 1;
    }
    true
}


/// The single-pass layout of several questions: their slot labels, slot ids and
/// per-question slot counts. `Invalid` for a blank or repeated question id or an
/// unsound option list, `TooLong` for an empty or oversized option list or more
/// than 25 slots in all; the first failing question decides.
pub fn batch_layout(questions: &[BatchQuestion]) -> (r: Result<
    (Vec<String>, Vec<String>, Vec<usize>),
    Error,
>)
    ensures
        r is Ok <==> questions_check(questions@) == Check::Pass && all_slot_ids(questions@).len()
            <= MAX_CLASSES,
        r matches Ok((labels, ids, counts)) ==> views(labels@) == all_slot_labels(questions@)
            && views(ids@) == all_slot_ids(questions@) && counts@ == slot_counts(questions@),
        r matches Err(e) ==> match questions_check(questions@) {
            Check::Invalid => e is Invalid,
            _ => e == Error::TooLong,
        },
{
    let mut labels: Vec<String> = Vec::new();
    let mut ids: Vec<String> = Vec::new();
    let mut counts: Vec<usize> = Vec::new();
    let mut i: usize = 0;
    while i < questions.len()
        invariant
            i <= questions@.len(),
            questions_check(questions@.subrange(0, i as int)) == Check::Pass,
            views(labels@) == all_slot_labels(questions@.subrange(0, i as int)),
            views(ids@) == all_slot_ids(questions@.subrange(0, i as int)),
            counts@ == slot_counts(questions@.subrange(0, i as int)),
        decreases questions@.len() - i,
    {
        let ghost pre = questions@.subrange(0, i as int);
        let ghost cur = questions@.subrange(0, i + 1);
        assert(cur.drop_last() =~= pre);
        assert(cur.last() == questions@[i as int]);
        let q = &questions[i];
        if is_blank(q.id.as_str()) {
            assert(question_check(*q, question_ids(pre)) == Check::Invalid);
            proof {
                lemma_check_stays(questions@, i as int + 1);
            }
            return Err(Error::Invalid(String::from_str("question id")));
        }
        let mut j: usize = 0;
        while j < i
            invariant
                j <= i < questions@.len(),
                *q == questions@[i as int],
                pre == questions@.subrange(0, i as int),
                questions_check(pre) == Check::Pass,
                cur == questions@.subrange(0, i + 1),
                cur.drop_last() == pre,
                cur.last() == questions@[i as int],
                forall|k: int| 0 <= k < j ==> questions@[k].id@ != q.id@,
            decreases i - j,
        {
            if questions[j].id == q.id {
                assert(question_ids(pre)[j as int] == q.id@);
                assert(question_ids(pre).contains(q.id@));
                assert(question_check(*q, question_ids(pre)) == Check::Invalid);
                proof {
                    lemma_check_stays(questions@, i as int + 1);
                }
                return Err(Error::Invalid(String::from_str("question id")));
            }
            j = j + 1;
        }
        assert(!question_ids(pre).contains(q.id@));
        if q.options.len() == 0 || q.options.len() > MAX_OPTIONS {
            proof {
                lemma_check_stays(questions@, i as int + 1);
            }
            return Err(Error::TooLong);
        }
        if !check_options(q) {
            proof {
                lemma_check_stays(questions@, i as int + 1);
            }
            return Err(Error::Invalid(String::from_str("option")));
        }
        let n = push_question(q, &mut labels, &mut ids);
        counts.push(n);
        assert(counts@ =~= slot_counts(cur));
        i = i + 1;
    }
    assert(questions@.subrange(0, questions@.len() as int) =~= questions@);
    if ids.len() > MAX_CLASSES {
        return Err(Error::TooLong);
    }
    Ok((labels, ids, counts))
}

/// Once a prefix of the questions fails, the whole list fails the same way.
proof fn lemma_check_stays(qs: Seq<BatchQuestion>, k: int)
    requires
        0 <= k <= qs.len(),
        questions_check(qs.subrange(0, k)) != Check::Pass,
    ensures
        questions_check(qs) == questions_check(qs.subrange(0, k)),
    decreases qs.len() - k,
{
    if k < qs.len() {
        assert(qs.subrange(0, k + 1).drop_last() =~= qs.subrange(0, k));
        lemma_check_stays(qs, k + 1);
    } else {
        assert(qs.subrange(0, k) =~= qs);
    }
}


/// Slot ids of a single decision: its option ids, then the abstention id.
pub open spec fn decide_ids(opts: Seq<OptionSpec>, abstention: bool) -> Seq<Seq<char>> {
    option_ids(opts) + if abstention { seq![ABSTENTION_ID@] } else { Seq::empty() }
}

/// Slot labels of a single decision: its option texts, then the abstention text.
pub open spec fn decide_labels(opts: Seq<OptionSpec>, abstention: bool) -> Seq<Seq<char>> {
    texts_of(opts) + if abstention { seq![ABSTENTION_DESC@] } else { Seq::empty() }
}

pub open spec fn all_named(opts: Seq<OptionSpec>) -> bool {
    forall|i: int| 0 <= i < opts.len() ==> (#[trigger] opts[i]).id@.len() > 0 && opts[i].text@.len() > 0
}

pub open spec fn distinct_ids(ids: Seq<Seq<char>>) -> bool {
    forall|i: int, j: int| 0 <= i < j < ids.len() ==> ids[i] != ids[j]
}

/// The request checks of a single decision, in order: the state's length, the
/// number of options, the temperature (`temperature_ok`, decided by the caller),
/// named options, and distinct slot ids.
pub open spec fn decide_error(state: Seq<u8>, opts: Seq<OptionSpec>, abstention: bool, temperature_ok: bool, e: Error) -> bool {
    if state.len() == 0 || state.len() > MAX_STATE_BYTES {
        e == Error::TooLong
    } else if opts.len() == 0 || opts.len() > MAX_OPTIONS {
        e == Error::TooLong
    } else if !temperature_ok {
        e == Error::Numeric
    } else if !all_named(opts) {
        e matches Error::Invalid(m) && m@ == "option"@
    } else {
        e matches Error::Invalid(m) && m@ == "duplicate option id"@
    }
}

pub open spec fn decide_ok(state: Seq<u8>, opts: Seq<OptionSpec>, abstention: bool, temperature_ok: bool) -> bool {
    &&& 0 < state.len() <= MAX_STATE_BYTES
    &&& 0 < opts.len() <= MAX_OPTIONS
    &&& temperature_ok
    &&& all_named(opts)
    &&& distinct_ids(decide_ids(opts, abstention))
}

/// The slot ids and labels of a single decision after its request checks.
pub fn decide_layout(state: &str, options: &[OptionSpec], abstention: bool, temperature_ok: bool) -> (r: Result<
    (Vec<String>, Vec<String>),
    Error,
>)
    ensures
        r is Ok <==> decide_ok(state.spec_bytes(), options@, abstention, temperature_ok),
        r matches Ok((ids, labels)) ==> views(ids@) == decide_ids(options@, abstention) && views(labels@)
            == decide_labels(options@, abstention) && ids@.len() <= MAX_CLASSES,
        r matches Err(e) ==> decide_error(state.spec_bytes(), options@, abstention, temperature_ok, e),
{
    let sl = state.as_bytes().len();
    if sl == 0 || sl > MAX_STATE_BYTES {
        return Err(Error::TooLong);
    }
    if options.len() == 0 || options.len() > MAX_OPTIONS {
        return Err(Error::TooLong);
    }
    if !temperature_ok {
        return Err(Error::Numeric);
    }
    let mut k: usize = 0;
    while k < options.len()
        invariant
            k <= options@.len(),
            0 < state.spec_bytes().len() <= MAX_STATE_BYTES,
            0 < options@.len() <= MAX_OPTIONS,
            temperature_ok,
            forall|i: int| 0 <= i < k ==> (#[trigger] options@[i]).id@.len() > 0 && options@[i].text@.len() > 0,
        decreases options@.len() - k,
    {
        if options[k].id.as_str().is_empty() || options[k].text.as_str().is_empty() {
            assert(!((options@[k as int]).id@.len() > 0 && options@[k as int].text@.len() > 0));
            assert(!all_named(options@));
            return Err(Error::Invalid(String::from_str("option")));
        }
        k = k + 1;
    }
    let mut ids: Vec<String> = Vec::new();
    let mut labels: Vec<String> = Vec::new();
    let mut k: usize = 0;
    while k < options.len()
        invariant
            k <= options@.len() <= MAX_OPTIONS,
            views(ids@) == option_ids(options@.subrange(0, k as int)),
            views(labels@) == texts_of(options@.subrange(0, k as int)),
        decreases options@.len() - k,
    {
        let ghost ib = ids@;
        let ghost lb = labels@;
        let d = options[k].id.clone();
        let t = options[k].text.clone();
        ids.push(d);
        labels.push(t);
        assert(views(ids@) =~= views(ib).push(d@));
        assert(views(labels@) =~= views(lb).push(t@));
        assert(option_ids(options@.subrange(0, k + 1)) =~= option_ids(options@.subrange(0, k as int)).push(d@));
        assert(texts_of(options@.subrange(0, k + 1)) =~= texts_of(options@.subrange(0, k as int)).push(t@));
        k = k + 1;
    }
    assert(options@.subrange(0, options@.len() as int) =~= options@);
    if abstention {
        let ghost ib = ids@;
        let ghost lb = labels@;
        let d = String::from_str(ABSTENTION_ID);
        let t = String::from_str(ABSTENTION_DESC);
        ids.push(d);
        labels.push(t);
        assert(views(ids@) =~= views(ib).push(d@));
        assert(views(labels@) =~= views(lb).push(t@));
    }
    assert(views(ids@) =~= decide_ids(options@, abstention));
    assert(views(labels@) =~= decide_labels(options@, abstention));
    if ids.len() > MAX_CLASSES {
        return Err(Error::TooLong);
    }
    let ghost v = views(ids@);
    let mut i: usize = 0;
    while i < ids.len()
        invariant
            i <= ids@.len(),
            v == views(ids@),
            v == decide_ids(options@, abstention),
            0 < state.spec_bytes().len() <= MAX_STATE_BYTES,
            0 < options@.len() <= MAX_OPTIONS,
            temperature_ok,
            all_named(options@),
            forall|a: int, b: int| 0 <= a < b < i ==> v[a] != v[b],
        decreases ids@.len() - i,
    {
        let mut j: usize = 0;
        while j < i
            invariant
                i < ids@.len(),
                j <= i,
                v == views(ids@),
                v == decide_ids(options@, abstention),
                0 < state.spec_bytes().len() <= MAX_STATE_BYTES,
                0 < options@.len() <= MAX_OPTIONS,
                temperature_ok,
                all_named(options@),
                forall|a: int| 0 <= a < j ==> v[a] != v[i as int],
            decreases i - j,
        {
            if str_eq(ids[j].as_str(), ids[i].as_str()) {
                assert(v[j as int] == v[i as int]);
                assert(!distinct_ids(decide_ids(options@, abstention)));
                return Err(Error::Invalid(String::from_str("duplicate option id")));
            }
            j = j + 1;
        }
        i = i + 1;
    }
    Ok((ids, labels))
}

} // verus!
