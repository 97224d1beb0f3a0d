//! Positional queries on cursors: neighbouring keysymbols, order between
//! cursors, and the spelling around a cursor including silent letters.

use vstd::prelude::*;
use vstd::string::StringExecFns;
use crate::cursor::DefViewCursor;
use crate::def_view::{DefView, DefViewSpec, as_path};
use crate::item::{DefViewErr, DefViewErrSpec, DefViewItemRef, ItemSpec, item_result_view};
use crate::position::{Moved, lex_less, path_of, peek, step_forward, steps_backward};
use crate::scan::{
    ByClass, KeysymbolClass, class_items,
    lemma_steps_backward_unique, search_agrees, searches_backward, searches_forward,
    searches_from_end, searches_from_start, seek_after, seek_before,
};
use crate::rank::{lemma_rank_bound, lemma_step_backward_rank, lemma_step_forward_rank, limit, rank, weight};
use crate::text::{concat_text, lemma_concat_text_step};

verus! {

/// Skipping equal heads does not change the order of two sequences.
pub proof fn lemma_lex_less_skip(a: Seq<int>, b: Seq<int>, i: int)
    requires
        0 <= i <= a.len(),
        i <= b.len(),
        forall|j: int| 0 <= j < i ==> a[j] == b[j],
    ensures
        lex_less(a, b) == lex_less(a.skip(i), b.skip(i)),
    decreases i,
{
    if i == 0 {
        assert(a.skip(0) =~= a);
        assert(b.skip(0) =~= b);
    } else {
        lemma_lex_less_skip(a, b, i - 1);
        let x = a.skip(i - 1);
        let y = b.skip(i - 1);
        assert(x[0] == a[i - 1]);
        assert(y[0] == b[i - 1]);
        assert(x.drop_first() =~= a.skip(i));
        assert(y.drop_first() =~= b.skip(i));
    }
}

/// Whether `seq_a` comes strictly before `seq_b` in lexicographic order; a
/// proper prefix comes before its extensions.
pub fn seq_less_than(seq_a: &[usize], seq_b: &[usize]) -> (r: bool)
    ensures
        r == lex_less(as_path(seq_a@), as_path(seq_b@)),
{
    let ghost a = as_path(seq_a@);
    let ghost b = as_path(seq_b@);
    let mut i: usize = 0;
    while i < seq_a.len()
        invariant
            i <= seq_a.len(),
            i <= seq_b.len(),
            a == as_path(seq_a@),
            b == as_path(seq_b@),
            forall|j: int| 0 <= j < i ==> a[j] == b[j],
        decreases seq_a.len() - i,
    {
        proof {
            lemma_lex_less_skip(a, b, i as int);
        }
        if i < seq_b.len() {
            if seq_a[i] < seq_b[i] {
                proof {
                    assert(a.skip(i as int)[0] == seq_a@[i as int] as int);
                    assert(b.skip(i as int)[0] == seq_b@[i as int] as int);
                }
                return true;
            }
            if seq_a[i] > seq_b[i] {
                proof {
                    assert(a.skip(i as int)[0] == seq_a@[i as int] as int);
                    assert(b.skip(i as int)[0] == seq_b@[i as int] as int);
                }
                return false;
            }
        } else {
            proof {
                assert(b.skip(i as int).len() == 0);
            }
            return false;
        }
        i += 1;
    }
    proof {
        lemma_lex_less_skip(a, b, i as int);
        assert(a.skip(i as int).len() == 0);
    }
    i < seq_b.len()
}

/// Whether a path comes before the position that `anchor` gives; an absent
/// anchor lies after every path.
pub open spec fn before_anchor(path: Seq<int>, anchor: Option<Seq<int>>) -> bool {
    match anchor {
        Some(p) => lex_less(path, p),
        None => true,
    }
}

/// Whether a path comes after the position that `anchor` gives; an absent
/// anchor lies before every path.
pub open spec fn after_anchor(path: Seq<int>, anchor: Option<Seq<int>>) -> bool {
    match anchor {
        Some(p) => lex_less(p, path),
        None => true,
    }
}

/// The position that an ended search arrived at, if it found an item.
pub open spec fn found_path(out: Moved<bool>) -> Option<Seq<int>> {
    if out.result == Ok::<bool, DefViewErrSpec>(true) {
        Some(path_of(out.frames))
    } else {
        None
    }
}

/// What a silent-letter run makes of an item: a sopheme that cannot be
/// silent ends the run, one that can be silent contributes its spelling,
/// and any other item is passed over.
pub enum RunStep {
    Stop,
    Take(Seq<char>),
    Pass,
}

pub open spec fn run_step(x: ItemSpec) -> RunStep {
    match x {
        ItemSpec::Sopheme(s) => if s.can_be_silent() {
            RunStep::Take(s.chars)
        } else {
            RunStep::Stop
        },
        _ => RunStep::Pass,
    }
}

/// The run of silent sophemes after `frames`: after `n` forward steps it
/// has collected the spellings `parts`, in the order met, and ended as
/// `res` says.
pub open spec fn runs_forward(
    v: DefViewSpec,
    frames: Seq<Option<int>>,
    n: nat,
    parts: Seq<Seq<char>>,
    res: Result<(), DefViewErrSpec>,
) -> bool
    decreases n,
{
    n > 0 && {
        let step = step_forward(v, frames);
        match step.result {
            Ok(Some(x)) => match run_step(x) {
                RunStep::Stop => parts.len() == 0 && res == Ok::<(), DefViewErrSpec>(()),
                RunStep::Take(chars) => parts.len() > 0 && parts[0] == chars && runs_forward(
                    v,
                    step.frames,
                    (n - 1) as nat,
                    parts.drop_first(),
                    res,
                ),
                RunStep::Pass => runs_forward(v, step.frames, (n - 1) as nat, parts, res),
            },
            Ok(None) => parts.len() == 0 && res == Ok::<(), DefViewErrSpec>(()),
            Err(e) => parts.len() == 0 && res == Err::<(), DefViewErrSpec>(e),
        }
    }
}

/// The run of silent sophemes before `frames`: after `n` backward steps it
/// has collected the spellings `parts`, in the order met, and ended as
/// `res` says.
pub open spec fn runs_backward(
    v: DefViewSpec,
    frames: Seq<Option<int>>,
    n: nat,
    parts: Seq<Seq<char>>,
    res: Result<(), DefViewErrSpec>,
) -> bool
    decreases n,
{
    n > 0 && exists|back: Moved<Option<ItemSpec>>| #[trigger]
        steps_backward(v, frames, back) && match back.result {
            Ok(Some(x)) => match run_step(x) {
                RunStep::Stop => parts.len() == 0 && res == Ok::<(), DefViewErrSpec>(()),
                RunStep::Take(chars) => parts.len() > 0 && parts[0] == chars && runs_backward(
                    v,
                    back.frames,
                    (n - 1) as nat,
                    parts.drop_first(),
                    res,
                ),
                RunStep::Pass => runs_backward(v, back.frames, (n - 1) as nat, parts, res),
            },
            Ok(None) => parts.len() == 0 && res == Ok::<(), DefViewErrSpec>(()),
            Err(e) => parts.len() == 0 && res == Err::<(), DefViewErrSpec>(e),
        }
}

/// The spelling of the sopheme at a focus; other items have none.
pub open spec fn focus_spelling(x: ItemSpec) -> Seq<char> {
    match x {
        ItemSpec::Sopheme(s) => s.chars,
        _ => Seq::empty(),
    }
}

/// `spelling` is the spelling around a focus: the silent run before it,
/// read in the order of the view, the spelling of the sopheme at the
/// focus, and the silent run after it. The first failure wins: of the run
/// before, of the focus (which must hold an item), then of the run after.
pub open spec fn spelling_is(
    v: DefViewSpec,
    frames: Seq<Option<int>>,
    spelling: Result<Seq<char>, DefViewErrSpec>,
) -> bool {
    exists|n: nat, before: Seq<Seq<char>>, before_res: Result<(), DefViewErrSpec>| #[trigger]
        runs_backward(v, frames, n, before, before_res) && match before_res {
            Err(e) => spelling == Err::<Seq<char>, DefViewErrSpec>(e),
            Ok(_) => match peek(v, frames) {
                Err(e) => spelling == Err::<Seq<char>, DefViewErrSpec>(e),
                Ok(None) => spelling == Err::<Seq<char>, DefViewErrSpec>(
                    DefViewErrSpec::UnexpectedNone,
                ),
                Ok(Some(x)) => spelling_goes_on(v, frames, before, x, spelling),
            },
        }
}

/// `spelling` is the spelling around a focus that holds the item `x`, after
/// the silent run `before`.
pub open spec fn spelling_goes_on(
    v: DefViewSpec,
    frames: Seq<Option<int>>,
    before: Seq<Seq<char>>,
    x: ItemSpec,
    spelling: Result<Seq<char>, DefViewErrSpec>,
) -> bool {
    exists|n: nat, after: Seq<Seq<char>>, after_res: Result<(), DefViewErrSpec>| #[trigger]
        runs_forward(v, frames, n, after, after_res) && spelling == match after_res {
            Err(e) => Err::<Seq<char>, DefViewErrSpec>(e),
            Ok(_) => Ok::<Seq<char>, DefViewErrSpec>(
                concat_text(before.reverse()) + focus_spelling(x) + concat_text(after),
            ),
        }
}

/// The value of an outcome that carries text.
pub open spec fn text_result_view(r: Result<String, DefViewErr>) -> Result<Seq<char>, DefViewErrSpec> {
    match r {
        Ok(s) => Ok(s@),
        Err(e) => Err(e@),
    }
}

/// The views of a list of string slices.
pub open spec fn strs_view(parts: Seq<&str>) -> Seq<Seq<char>> {
    parts.map_values(|s: &str| s@)
}

/// Appends the parts to `out`, first to last.
pub fn append_all(out: &mut String, parts: &Vec<&str>)
    ensures
        final(out)@ == old(out)@ + concat_text(strs_view(parts@)),
{
    let ghost texts = strs_view(parts@);
    let mut k: usize = 0;
    while k < parts.len()
        invariant
            k <= parts.len(),
            texts == strs_view(parts@),
            out@ == old(out)@ + concat_text(texts.take(k as int)),
        decreases parts.len() - k,
    {
        proof {
            lemma_concat_text_step(texts, k as int);
        }
        out.append(parts[k]);
        proof {
            assert(out@ =~= old(out)@ + concat_text(texts.take(k as int + 1)));
        }
        k += 1;
    }
    proof {
        assert(texts.take(k as int) =~= texts);
        assert(old(out)@ + Seq::<char>::empty() =~= old(out)@);
    }
}

/// Appends the parts to `out`, last to first.
pub fn append_all_reversed(out: &mut String, parts: &Vec<&str>)
    ensures
        final(out)@ == old(out)@ + concat_text(strs_view(parts@).reverse()),
{
    let ghost texts = strs_view(parts@).reverse();
    let n: usize = parts.len();
    let mut k: usize = 0;
    while k < n
        invariant
            k <= n,
            n == parts.len(),
            texts == strs_view(parts@).reverse(),
            out@ == old(out)@ + concat_text(texts.take(k as int)),
        decreases n - k,
    {
        proof {
            lemma_concat_text_step(texts, k as int);
            assert(texts[k as int] == parts@[n - 1 - k]@);
        }
        out.append(parts[n - 1 - k]);
        proof {
            assert(out@ =~= old(out)@ + concat_text(texts.take(k as int + 1)));
        }
        k += 1;
    }
    proof {
        assert(texts.take(k as int) =~= texts);
        assert(old(out)@ + Seq::<char>::empty() =~= old(out)@);
    }
}

/// Nothing: the predicate that holds of no item.
pub open spec fn no_items() -> spec_fn(ItemSpec) -> bool {
    |y: ItemSpec| false
}

impl<'a> DefView<'a> {
    /// Calls `func` on every item of the view, in depth-first preorder,
    /// with the cursor that stands on the item.
    pub fn foreach<'v, F: Fn(DefViewItemRef<'a>, &DefViewCursor<'a, 'v>)>(&'v self, func: F) -> (r:
        Result<(), DefViewErr>) where 'v: 'a
        requires
            forall|item: DefViewItemRef<'a>, cur: &DefViewCursor<'a, 'v>| #[trigger]
                func.requires((item, cur)),
        ensures
            exists|n: nat, out: Moved<bool>| #[trigger]
                searches_from_start(self@, no_items(), n, out) && out.result == match r {
                    Ok(_) => Ok::<bool, DefViewErrSpec>(false),
                    Err(e) => Err::<bool, DefViewErrSpec>(e@),
                },
    {
        let ghost v = self@;
        let ghost want = no_items();
        let ghost start = seq![None::<int>];
        let ghost mut steps: nat = 0;
        let mut cursor = DefViewCursor::of_view_at_start(self);
        loop
            invariant
                cursor.wf(),
                cursor.target() == v,
                v == self@,
                want == no_items(),
                start == seq![None::<int>],
                forall|item: DefViewItemRef<'a>, cur: &DefViewCursor<'a, 'v>| #[trigger]
                    func.requires((item, cur)),
                forall|n: nat, out: Moved<bool>| #[trigger]
                    searches_forward(v, cursor.frames(), want, n, out) ==> searches_forward(
                        v,
                        start,
                        want,
                        n + steps,
                        out,
                    ),
            decreases weight(limit()) - rank(cursor.frames()),
        {
            let ghost before = cursor.frames();
            proof {
                cursor.lemma_bounded();
            }
            match cursor.step_forward() {
                Ok(Some(item_ref)) => {
                    proof {
                        cursor.lemma_bounded();
                        lemma_step_forward_rank(v, before);
                        lemma_rank_bound(cursor.frames());
                    }
                    func(item_ref, &cursor);
                    proof {
                        assert forall|n: nat, out: Moved<bool>| #[trigger]
                            searches_forward(
                                v,
                                cursor.frames(),
                                want,
                                n,
                                out,
                            ) implies searches_forward(v, start, want, n + (steps + 1), out) by {
                            assert(searches_forward(v, before, want, n + 1, out));
                            assert(n + 1 + steps == n + (steps + 1));
                        }
                        steps = steps + 1;
                    }
                },
                Ok(None) => {
                    proof {
                        let out = Moved {
                            frames: cursor.frames(),
                            result: Ok::<bool, DefViewErrSpec>(false),
                        };
                        assert(searches_forward(v, before, want, 1, out));
                        assert(searches_forward(v, start, want, 1 + steps, out));
                        assert(searches_from_start(v, want, 1 + steps, out));
                    }
                    return Ok(());
                },
                Err(e) => {
                    proof {
                        let out = Moved {
                            frames: cursor.frames(),
                            result: Err::<bool, DefViewErrSpec>(e@),
                        };
                        assert(searches_forward(v, before, want, 1, out));
                        assert(searches_forward(v, start, want, 1 + steps, out));
                        assert(searches_from_start(v, want, 1 + steps, out));
                    }
                    return Err(e);
                },
            }
        }
    }
}

impl<'defs, 'view> DefViewCursor<'defs, 'view> {
    /// The spellings of the silent sophemes that precede the cursor without
    /// a break, nearest first.
    pub fn collect_silent_backward(&self) -> (r: Result<Vec<&'defs str>, DefViewErr>)
        requires
            self.wf(),
        ensures
            exists|n: nat, parts: Seq<Seq<char>>, res: Result<(), DefViewErrSpec>| #[trigger]
                runs_backward(self.target(), self.frames(), n, parts, res) && match r {
                    Ok(found) => res is Ok && strs_view(found@) == parts,
                    Err(e) => res == Err::<(), DefViewErrSpec>(e@),
                },
    {
        let ghost v = self.target();
        let ghost start = self.frames();
        let ghost mut steps: nat = 0;
        let mut found: Vec<&'defs str> = Vec::new();
        let mut cur = self.clone();
        proof {
            assert forall|n: nat, parts: Seq<Seq<char>>, res: Result<(), DefViewErrSpec>| #[trigger]
                runs_backward(v, cur.frames(), n, parts, res) implies runs_backward(
                v,
                start,
                n + steps,
                strs_view(found@) + parts,
                res,
            ) by {
                assert(strs_view(found@) + parts =~= parts);
            }
        }
        loop
            invariant
                cur.wf(),
                cur.target() == v,
                v == self.target(),
                start == self.frames(),
                forall|n: nat, parts: Seq<Seq<char>>, res: Result<(), DefViewErrSpec>| #[trigger]
                    runs_backward(v, cur.frames(), n, parts, res) ==> runs_backward(
                        v,
                        start,
                        n + steps,
                        strs_view(found@) + parts,
                        res,
                    ),
            decreases rank(cur.frames()),
        {
            let ghost before = cur.frames();
            let ghost so_far = strs_view(found@);
            proof {
                cur.lemma_bounded();
            }
            let stepped = cur.step_backward();
            let ghost actual = Moved { frames: cur.frames(), result: item_result_view(stepped) };
            proof {
                cur.lemma_bounded();
                if actual.result is Ok && actual.result->Ok_0 is Some {
                    lemma_step_backward_rank(v, before, actual);
                }
                assert(so_far + Seq::<Seq<char>>::empty() =~= so_far);
            }
            match stepped {
                Ok(Some(DefViewItemRef::Sopheme(sopheme))) => {
                    if !sopheme.can_be_silent() {
                        proof {
                            assert(steps_backward(v, before, actual));
                            assert(runs_backward(
                                v,
                                before,
                                1,
                                Seq::empty(),
                                Ok::<(), DefViewErrSpec>(()),
                            ));
                        }
                        return Ok(found);
                    }
                    found.push(sopheme.chars.as_str());
                    proof {
                        assert(strs_view(found@) =~= so_far.push(sopheme.chars@));
                        assert forall|
                            n: nat,
                            parts: Seq<Seq<char>>,
                            res: Result<(), DefViewErrSpec>,
                        | #[trigger]
                            runs_backward(v, cur.frames(), n, parts, res) implies runs_backward(
                            v,
                            start,
                            n + (steps + 1),
                            strs_view(found@) + parts,
                            res,
                        ) by {
                            let longer = seq![sopheme.chars@] + parts;
                            assert(longer.drop_first() =~= parts);
                            assert(steps_backward(v, before, actual));
                            assert(runs_backward(v, before, n + 1, longer, res));
                            assert(so_far + longer =~= strs_view(found@) + parts);
                            assert(n + 1 + steps == n + (steps + 1));
                        }
                        steps = steps + 1;
                    }
                },
                Ok(Some(_)) => {
                    proof {
                        assert forall|
                            n: nat,
                            parts: Seq<Seq<char>>,
                            res: Result<(), DefViewErrSpec>,
                        | #[trigger]
                            runs_backward(v, cur.frames(), n, parts, res) implies runs_backward(
                            v,
                            start,
                            n + (steps + 1),
                            strs_view(found@) + parts,
                            res,
                        ) by {
                            assert(steps_backward(v, before, actual));
                            assert(runs_backward(v, before, n + 1, parts, res));
                            assert(n + 1 + steps == n + (steps + 1));
                        }
                        steps = steps + 1;
                    }
                },
                Ok(None) => {
                    proof {
                        assert(steps_backward(v, before, actual));
                        assert(runs_backward(
                            v,
                            before,
                            1,
                            Seq::empty(),
                            Ok::<(), DefViewErrSpec>(()),
                        ));
                    }
                    return Ok(found);
                },
                Err(e) => {
                    proof {
                        assert(steps_backward(v, before, actual));
                        assert(runs_backward(
                            v,
                            before,
                            1,
                            Seq::empty(),
                            Err::<(), DefViewErrSpec>(e@),
                        ));
                    }
                    return Err(e);
                },
            }
        }
    }

    /// The spellings of the silent sophemes that follow the cursor without
    /// a break, nearest first.
    pub fn collect_silent_forward(&self) -> (r: Result<Vec<&'defs str>, DefViewErr>)
        requires
            self.wf(),
        ensures
            exists|n: nat, parts: Seq<Seq<char>>, res: Result<(), DefViewErrSpec>| #[trigger]
                runs_forward(self.target(), self.frames(), n, parts, res) && match r {
                    Ok(found) => res is Ok && strs_view(found@) == parts,
                    Err(e) => res == Err::<(), DefViewErrSpec>(e@),
                },
    {
        let ghost v = self.target();
        let ghost start = self.frames();
        let ghost mut steps: nat = 0;
        let mut found: Vec<&'defs str> = Vec::new();
        let mut cur = self.clone();
        proof {
            assert forall|n: nat, parts: Seq<Seq<char>>, res: Result<(), DefViewErrSpec>| #[trigger]
                runs_forward(v, cur.frames(), n, parts, res) implies runs_forward(
                v,
                start,
                n + steps,
                strs_view(found@) + parts,
                res,
            ) by {
                assert(strs_view(found@) + parts =~= parts);
            }
        }
        loop
            invariant
                cur.wf(),
                cur.target() == v,
                v == self.target(),
                start == self.frames(),
                forall|n: nat, parts: Seq<Seq<char>>, res: Result<(), DefViewErrSpec>| #[trigger]
                    runs_forward(v, cur.frames(), n, parts, res) ==> runs_forward(
                        v,
                        start,
                        n + steps,
                        strs_view(found@) + parts,
                        res,
                    ),
            decreases weight(limit()) - rank(cur.frames()),
        {
            let ghost before = cur.frames();
            let ghost so_far = strs_view(found@);
            proof {
                cur.lemma_bounded();
                assert(so_far + Seq::<Seq<char>>::empty() =~= so_far);
            }
            let stepped = cur.step_forward();
            proof {
                cur.lemma_bounded();
                lemma_rank_bound(cur.frames());
                if stepped is Ok && stepped->Ok_0 is Some {
                    lemma_step_forward_rank(v, before);
                }
            }
            match stepped {
                Ok(Some(DefViewItemRef::Sopheme(sopheme))) => {
                    if !sopheme.can_be_silent() {
                        proof {
                            assert(runs_forward(
                                v,
                                before,
                                1,
                                Seq::empty(),
                                Ok::<(), DefViewErrSpec>(()),
                            ));
                        }
                        return Ok(found);
                    }
                    found.push(sopheme.chars.as_str());
                    proof {
                        assert(strs_view(found@) =~= so_far.push(sopheme.chars@));
                        assert forall|
                            n: nat,
                            parts: Seq<Seq<char>>,
                            res: Result<(), DefViewErrSpec>,
                        | #[trigger]
                            runs_forward(v, cur.frames(), n, parts, res) implies runs_forward(
                            v,
                            start,
                            n + (steps + 1),
                            strs_view(found@) + parts,
                            res,
                        ) by {
                            let longer = seq![sopheme.chars@] + parts;
                            assert(longer.drop_first() =~= parts);
                            assert(runs_forward(v, before, n + 1, longer, res));
                            assert(so_far + longer =~= strs_view(found@) + parts);
                            assert(n + 1 + steps == n + (steps + 1));
                        }
                        steps = steps + 1;
                    }
                },
                Ok(Some(_)) => {
                    proof {
                        assert forall|
                            n: nat,
                            parts: Seq<Seq<char>>,
                            res: Result<(), DefViewErrSpec>,
                        | #[trigger]
                            runs_forward(v, cur.frames(), n, parts, res) implies runs_forward(
                            v,
                            start,
                            n + (steps + 1),
                            strs_view(found@) + parts,
                            res,
                        ) by {
                            assert(runs_forward(v, before, n + 1, parts, res));
                            assert(n + 1 + steps == n + (steps + 1));
                        }
                        steps = steps + 1;
                    }
                },
                Ok(None) => {
                    proof {
                        assert(runs_forward(
                            v,
                            before,
                            1,
                            Seq::empty(),
                            Ok::<(), DefViewErrSpec>(()),
                        ));
                    }
                    return Ok(found);
                },
                Err(e) => {
                    proof {
                        assert(runs_forward(
                            v,
                            before,
                            1,
                            Seq::empty(),
                            Err::<(), DefViewErrSpec>(e@),
                        ));
                    }
                    return Err(e);
                },
            }
        }
    }

    /// The spelling at the cursor together with the silent sophemes next
    /// to it on both sides.
    pub fn spelling_including_silent(&self) -> (r: Result<String, DefViewErr>)
        requires
            self.wf(),
        ensures
            spelling_is(self.target(), self.frames(), text_result_view(r)),
    {
        let ghost v = self.target();
        let backward_parts = match self.collect_silent_backward() {
            Ok(found) => found,
            Err(e) => {
                return Err(e);
            },
        };
        let mut out = String::new();
        append_all_reversed(&mut out, &backward_parts);
        match self.peek() {
            Ok(Some(DefViewItemRef::Sopheme(sopheme))) => {
                out.append(sopheme.chars.as_str());
            },
            Ok(Some(_)) => {},
            Ok(None) => {
                return Err(DefViewErr::UnexpectedNone);
            },
            Err(e) => {
                return Err(e);
            },
        }
        let ghost focus = peek(v, self.frames())->Ok_0->Some_0;
        let forward_parts = match self.collect_silent_forward() {
            Ok(found) => found,
            Err(e) => {
                proof {
                    assert(spelling_goes_on(
                        v,
                        self.frames(),
                        strs_view(backward_parts@),
                        focus,
                        Err::<Seq<char>, DefViewErrSpec>(e@),
                    ));
                }
                return Err(e);
            },
        };
        append_all(&mut out, &forward_parts);
        proof {
            assert(out@ =~= concat_text(strs_view(backward_parts@).reverse()) + focus_spelling(
                focus,
            ) + concat_text(strs_view(forward_parts@)));
            assert(spelling_goes_on(
                v,
                self.frames(),
                strs_view(backward_parts@),
                focus,
                Ok::<Seq<char>, DefViewErrSpec>(out@),
            ));
        }
        Ok(out)
    }

    /// The cursor on the nearest keysymbol before this one.
    pub fn prev_keysymbol_cur(&self) -> (r: Result<Option<DefViewCursor<'defs, 'view>>, DefViewErr>)
        requires
            self.wf(),
        ensures
            exists|n: nat, out: Moved<bool>| #[trigger]
                searches_backward(
                    self.target(),
                    self.frames(),
                    class_items(KeysymbolClass::Any),
                    n,
                    out,
                ) && search_agrees(self.target(), r, out),
    {
        seek_before(self.clone(), &ByClass(KeysymbolClass::Any))
    }

    /// The cursor on the nearest keysymbol after this one.
    pub fn next_keysymbol_cur(&self) -> (r: Result<Option<DefViewCursor<'defs, 'view>>, DefViewErr>)
        requires
            self.wf(),
        ensures
            exists|n: nat, out: Moved<bool>| #[trigger]
                searches_forward(
                    self.target(),
                    self.frames(),
                    class_items(KeysymbolClass::Any),
                    n,
                    out,
                ) && search_agrees(self.target(), r, out),
    {
        seek_after(self.clone(), &ByClass(KeysymbolClass::Any))
    }

    /// Whether this cursor comes before `cur`; an absent cursor lies after
    /// everything.
    pub fn occurs_before(&self, cur: Option<DefViewCursor<'defs, 'view>>) -> (r: bool)
        requires
            self.wf(),
            cur matches Some(c) ==> c.wf(),
        ensures
            r == match cur {
                Some(c) => lex_less(self.path(), c.path()),
                None => true,
            },
    {
        match cur {
            Some(c) => {
                let mine = self.index_stack();
                let theirs = c.index_stack();
                seq_less_than(mine.as_slice(), theirs.as_slice())
            },
            None => true,
        }
    }

    /// Whether this cursor comes after `cur`; an absent cursor lies before
    /// everything.
    pub fn occurs_after(&self, cur: Option<DefViewCursor<'defs, 'view>>) -> (r: bool)
        requires
            self.wf(),
            cur matches Some(c) ==> c.wf(),
        ensures
            r == match cur {
                Some(c) => lex_less(c.path(), self.path()),
                None => true,
            },
    {
        match cur {
            Some(c) => {
                let mine = self.index_stack();
                let theirs = c.index_stack();
                seq_less_than(theirs.as_slice(), mine.as_slice())
            },
            None => true,
        }
    }

    /// Whether this cursor comes before the index stack `anchor`; an absent
    /// anchor lies after everything.
    pub fn occurs_before_anchor(&self, anchor: &Option<Vec<usize>>) -> (r: bool)
        requires
            self.wf(),
        ensures
            r == match anchor {
                Some(p) => lex_less(self.path(), as_path(p@)),
                None => true,
            },
    {
        match anchor {
            Some(p) => {
                let mine = self.index_stack();
                seq_less_than(mine.as_slice(), p.as_slice())
            },
            None => true,
        }
    }

    /// Whether this cursor comes after the index stack `anchor`; an absent
    /// anchor lies before everything.
    pub fn occurs_after_anchor(&self, anchor: &Option<Vec<usize>>) -> (r: bool)
        requires
            self.wf(),
        ensures
            r == match anchor {
                Some(p) => lex_less(as_path(p@), self.path()),
                None => true,
            },
    {
        match anchor {
            Some(p) => {
                let mine = self.index_stack();
                seq_less_than(p.as_slice(), mine.as_slice())
            },
            None => true,
        }
    }

    fn occurs_before_first(&self, class: KeysymbolClass) -> (r: Result<bool, DefViewErr>)
        requires
            self.wf(),
        ensures
            exists|n: nat, out: Moved<bool>| #[trigger]
                searches_from_start(self.target(), class_items(class), n, out) && match out.result {
                    Ok(_) => r == Ok::<bool, DefViewErr>(
                        before_anchor(self.path(), found_path(out)),
                    ),
                    Err(e) => r is Err && r->Err_0@ == e,
                },
    {
        match self.view().first_of_class(class) {
            Ok(found) => Ok(self.occurs_before(found)),
            Err(e) => Err(e),
        }
    }

    fn occurs_after_last(&self, class: KeysymbolClass) -> (r: Result<bool, DefViewErr>)
        requires
            self.wf(),
        ensures
            exists|n: nat, out: Moved<bool>| #[trigger]
                searches_from_end(self.target(), class_items(class), n, out) && match out.result {
                    Ok(_) => r == Ok::<bool, DefViewErr>(after_anchor(self.path(), found_path(out))),
                    Err(e) => r is Err && r->Err_0@ == e,
                },
    {
        match self.view().last_of_class(class) {
            Ok(found) => Ok(self.occurs_after(found)),
            Err(e) => Err(e),
        }
    }

    pub fn occurs_before_first_consonant(&self) -> (r: Result<bool, DefViewErr>)
        requires
            self.wf(),
        ensures
            exists|n: nat, out: Moved<bool>| #[trigger]
                searches_from_start(self.target(), class_items(KeysymbolClass::Consonant), n, out)
                    && match out.result {
                    Ok(_) => r == Ok::<bool, DefViewErr>(
                        before_anchor(self.path(), found_path(out)),
                    ),
                    Err(e) => r is Err && r->Err_0@ == e,
                },
    {
        self.occurs_before_first(KeysymbolClass::Consonant)
    }

    pub fn occurs_after_last_consonant(&self) -> (r: Result<bool, DefViewErr>)
        requires
            self.wf(),
        ensures
            exists|n: nat, out: Moved<bool>| #[trigger]
                searches_from_end(self.target(), class_items(KeysymbolClass::Consonant), n, out)
                    && match out.result {
                    Ok(_) => r == Ok::<bool, DefViewErr>(after_anchor(self.path(), found_path(out))),
                    Err(e) => r is Err && r->Err_0@ == e,
                },
    {
        self.occurs_after_last(KeysymbolClass::Consonant)
    }

    pub fn occurs_before_first_vowel(&self) -> (r: Result<bool, DefViewErr>)
        requires
            self.wf(),
        ensures
            exists|n: nat, out: Moved<bool>| #[trigger]
                searches_from_start(self.target(), class_items(KeysymbolClass::Vowel), n, out)
                    && match out.result {
                    Ok(_) => r == Ok::<bool, DefViewErr>(
                        before_anchor(self.path(), found_path(out)),
                    ),
                    Err(e) => r is Err && r->Err_0@ == e,
                },
    {
        self.occurs_before_first(KeysymbolClass::Vowel)
    }

    pub fn occurs_after_last_vowel(&self) -> (r: Result<bool, DefViewErr>)
        requires
            self.wf(),
        ensures
            exists|n: nat, out: Moved<bool>| #[trigger]
                searches_from_end(self.target(), class_items(KeysymbolClass::Vowel), n, out)
                    && match out.result {
                    Ok(_) => r == Ok::<bool, DefViewErr>(after_anchor(self.path(), found_path(out))),
                    Err(e) => r is Err && r->Err_0@ == e,
                },
    {
        self.occurs_after_last(KeysymbolClass::Vowel)
    }
}

/// The outcome of the search for an anchor: the path of the item found,
/// nothing, or the error that ended the search.
pub open spec fn anchor_outcome(out: Moved<bool>) -> Result<Option<Seq<int>>, DefViewErrSpec> {
    match out.result {
        Ok(found) => if found {
            Ok(Some(path_of(out.frames)))
        } else {
            Ok(None)
        },
        Err(e) => Err(e),
    }
}

/// `anchor` is the outcome of the search for the first keysymbol of a
/// class.
pub open spec fn is_first_anchor(
    v: DefViewSpec,
    class: KeysymbolClass,
    anchor: Result<Option<Seq<int>>, DefViewErrSpec>,
) -> bool {
    exists|n: nat, out: Moved<bool>| #[trigger]
        searches_from_start(v, class_items(class), n, out) && anchor == anchor_outcome(out)
}

/// `anchor` is the outcome of the search for the last keysymbol of a
/// class.
pub open spec fn is_last_anchor(
    v: DefViewSpec,
    class: KeysymbolClass,
    anchor: Result<Option<Seq<int>>, DefViewErrSpec>,
) -> bool {
    exists|n: nat, out: Moved<bool>| #[trigger]
        searches_from_end(v, class_items(class), n, out) && anchor == anchor_outcome(out)
}

/// The value of an anchor.
pub open spec fn anchor_view(r: Result<Option<Vec<usize>>, DefViewErr>) -> Result<
    Option<Seq<int>>,
    DefViewErrSpec,
> {
    match r {
        Ok(Some(p)) => Ok(Some(as_path(p@))),
        Ok(None) => Ok(None),
        Err(e) => Err(e@),
    }
}

/// The mathematical value of the positional anchors of a view.
pub struct AnchorsSpec {
    pub first_consonant: Option<Seq<int>>,
    pub last_consonant: Option<Seq<int>>,
    pub first_vowel: Option<Seq<int>>,
    pub last_vowel: Option<Seq<int>>,
}

/// The positional anchors of a view: the index stacks of its first and last
/// consonant and of its first and last vowel, where it has them.
#[derive(Debug)]
pub struct DefViewAnchors {
    pub first_consonant: Option<Vec<usize>>,
    pub last_consonant: Option<Vec<usize>>,
    pub first_vowel: Option<Vec<usize>>,
    pub last_vowel: Option<Vec<usize>>,
}

/// The value of an optional index stack.
pub open spec fn stack_view(p: Option<Vec<usize>>) -> Option<Seq<int>> {
    match p {
        Some(p) => Some(as_path(p@)),
        None => None,
    }
}

impl View for DefViewAnchors {
    type V = AnchorsSpec;

    open spec fn view(&self) -> AnchorsSpec {
        AnchorsSpec {
            first_consonant: stack_view(self.first_consonant),
            last_consonant: stack_view(self.last_consonant),
            first_vowel: stack_view(self.first_vowel),
            last_vowel: stack_view(self.last_vowel),
        }
    }
}

/// The anchors that four searches give, or the error of the first search
/// that failed.
pub open spec fn anchors_of(
    first_consonant: Result<Option<Seq<int>>, DefViewErrSpec>,
    last_consonant: Result<Option<Seq<int>>, DefViewErrSpec>,
    first_vowel: Result<Option<Seq<int>>, DefViewErrSpec>,
    last_vowel: Result<Option<Seq<int>>, DefViewErrSpec>,
) -> Result<AnchorsSpec, DefViewErrSpec> {
    match first_consonant {
        Err(e) => Err(e),
        Ok(a) => match last_consonant {
            Err(e) => Err(e),
            Ok(b) => match first_vowel {
                Err(e) => Err(e),
                Ok(c) => match last_vowel {
                    Err(e) => Err(e),
                    Ok(d) => Ok(
                        AnchorsSpec {
                            first_consonant: a,
                            last_consonant: b,
                            first_vowel: c,
                            last_vowel: d,
                        },
                    ),
                },
            },
        },
    }
}

/// The value of the outcome of computing anchors.
pub open spec fn anchors_view(r: Result<DefViewAnchors, DefViewErr>) -> Result<
    AnchorsSpec,
    DefViewErrSpec,
> {
    match r {
        Ok(a) => Ok(a@),
        Err(e) => Err(e@),
    }
}

impl<'a> DefView<'a> {
    /// The index stack of the first keysymbol of a class.
    pub fn first_anchor(&self, class: KeysymbolClass) -> (r: Result<Option<Vec<usize>>, DefViewErr>)
        ensures
            is_first_anchor(self@, class, anchor_view(r)),
    {
        match self.first_of_class(class) {
            Ok(Some(cursor)) => Ok(Some(cursor.index_stack())),
            Ok(None) => Ok(None),
            Err(e) => Err(e),
        }
    }

    /// The index stack of the last keysymbol of a class.
    pub fn last_anchor(&self, class: KeysymbolClass) -> (r: Result<Option<Vec<usize>>, DefViewErr>)
        ensures
            is_last_anchor(self@, class, anchor_view(r)),
    {
        match self.last_of_class(class) {
            Ok(Some(cursor)) => Ok(Some(cursor.index_stack())),
            Ok(None) => Ok(None),
            Err(e) => Err(e),
        }
    }

    /// The positional anchors of the view.
    pub fn anchors(&self) -> (r: Result<DefViewAnchors, DefViewErr>)
        ensures
            exists|
                a: Result<Option<Seq<int>>, DefViewErrSpec>,
                b: Result<Option<Seq<int>>, DefViewErrSpec>,
                c: Result<Option<Seq<int>>, DefViewErrSpec>,
                d: Result<Option<Seq<int>>, DefViewErrSpec>,
            |
                #![trigger anchors_of(a, b, c, d)]
                is_first_anchor(self@, KeysymbolClass::Consonant, a) && is_last_anchor(
                    self@,
                    KeysymbolClass::Consonant,
                    b,
                ) && is_first_anchor(self@, KeysymbolClass::Vowel, c) && is_last_anchor(
                    self@,
                    KeysymbolClass::Vowel,
                    d,
                ) && anchors_view(r) == anchors_of(a, b, c, d),
    {
        let first_consonant = self.first_anchor(KeysymbolClass::Consonant);
        let last_consonant = self.last_anchor(KeysymbolClass::Consonant);
        let first_vowel = self.first_anchor(KeysymbolClass::Vowel);
        let last_vowel = self.last_anchor(KeysymbolClass::Vowel);
        let ghost a = anchor_view(first_consonant);
        let ghost b = anchor_view(last_consonant);
        let ghost c = anchor_view(first_vowel);
        let ghost d = anchor_view(last_vowel);
        let r = match first_consonant {
            Err(e) => Err(e),
            Ok(first_consonant) => match last_consonant {
                Err(e) => Err(e),
                Ok(last_consonant) => match first_vowel {
                    Err(e) => Err(e),
                    Ok(first_vowel) => match last_vowel {
                        Err(e) => Err(e),
                        Ok(last_vowel) => Ok(
                            DefViewAnchors {
                                first_consonant,
                                last_consonant,
                                first_vowel,
                                last_vowel,
                            },
                        ),
                    },
                },
            },
        };
        proof {
            assert(anchors_view(r) == anchors_of(a, b, c, d));
        }
        r
    }
}

} // verus!
