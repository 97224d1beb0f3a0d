//! Searching a view: the first item after a cursor, or the last item before
//! it, that a predicate accepts.

use vstd::prelude::*;
use crate::cursor::DefViewCursor;
use crate::def_view::{DefView, DefViewSpec};
use crate::item::{DefViewErr, DefViewErrSpec, DefViewItemRef, ItemSpec, item_result_view};
use crate::keysymbol::Keysymbol;
use crate::cursor::{lemma_drop_frame, lemma_move_top, lemma_peek_is_item_at, lemma_push_frame};
use crate::rank::{lemma_rank_bound, lemma_step_backward_rank, lemma_step_forward_rank, limit, rank, weight};
use crate::position::{
    Moved, drills_to, end_index, frames_wf, next_index, path_of, peek, peek_top, positions,
    prev_index, step_forward, step_in_at_start, step_over_forward, steps_backward, with_top,
};

verus! {

/// Whether `pred` answers every item, and answers alike for items of the
/// same value.
pub open spec fn decides<'a, F: Fn(DefViewItemRef<'a>) -> bool>(pred: F) -> bool {
    &&& forall|it: DefViewItemRef<'a>| #[trigger] pred.requires((it,))
    &&& forall|it1: DefViewItemRef<'a>, it2: DefViewItemRef<'a>, b1: bool, b2: bool|
        it1@ == it2@ && #[trigger] pred.ensures((it1,), b1) && #[trigger] pred.ensures((it2,), b2)
            ==> b1 == b2
}

/// Whether `pred` accepts items of value `y`.
pub open spec fn accepts<'a, F: Fn(DefViewItemRef<'a>) -> bool>(pred: F, y: ItemSpec) -> bool {
    exists|it: DefViewItemRef<'a>| it@ == y && #[trigger] pred.ensures((it,), true)
}

/// The acceptance of `pred` as a predicate on item values.
pub open spec fn acceptance<'a, F: Fn(DefViewItemRef<'a>) -> bool>(pred: F) -> spec_fn(
    ItemSpec,
) -> bool {
    |y: ItemSpec| accepts(pred, y)
}

/// A forward search from `frames` ends as `out` says after exactly `n`
/// forward steps: on the first item that `want` holds of (`Ok(true)`), at
/// the end of the view (`Ok(false)`), or with the first error.
pub open spec fn searches_forward(
    v: DefViewSpec,
    frames: Seq<Option<int>>,
    want: spec_fn(ItemSpec) -> bool,
    n: nat,
    out: Moved<bool>,
) -> bool
    decreases n,
{
    n > 0 && {
        let step = step_forward(v, frames);
        match step.result {
            Ok(Some(x)) => if want(x) {
                out == (Moved { frames: step.frames, result: Ok::<bool, DefViewErrSpec>(true) })
            } else {
                searches_forward(v, step.frames, want, (n - 1) as nat, out)
            },
            Ok(None) => out == (Moved {
                frames: step.frames,
                result: Ok::<bool, DefViewErrSpec>(false),
            }),
            Err(e) => out == (Moved { frames: step.frames, result: Err::<bool, DefViewErrSpec>(e) }),
        }
    }
}

/// A forward search that first tries the item at the focus.
pub open spec fn searches_forward_since(
    v: DefViewSpec,
    frames: Seq<Option<int>>,
    want: spec_fn(ItemSpec) -> bool,
    n: nat,
    out: Moved<bool>,
) -> bool {
    match peek(v, frames) {
        Ok(Some(x)) => if want(x) {
            out == (Moved { frames, result: Ok::<bool, DefViewErrSpec>(true) })
        } else {
            searches_forward(v, frames, want, n, out)
        },
        Ok(None) => searches_forward(v, frames, want, n, out),
        Err(e) => out == (Moved { frames, result: Err::<bool, DefViewErrSpec>(e) }),
    }
}

/// A backward search from `frames` ends as `out` says after exactly `n`
/// backward steps: on the first item that `want` holds of (`Ok(true)`),
/// where stepping backward reports nothing more (`Ok(false)`), or with the
/// first error.
pub open spec fn searches_backward(
    v: DefViewSpec,
    frames: Seq<Option<int>>,
    want: spec_fn(ItemSpec) -> bool,
    n: nat,
    out: Moved<bool>,
) -> bool
    decreases n,
{
    n > 0 && exists|back: Moved<Option<ItemSpec>>| #[trigger]
        steps_backward(v, frames, back) && match back.result {
            Ok(Some(x)) => if want(x) {
                out == (Moved { frames: back.frames, result: Ok::<bool, DefViewErrSpec>(true) })
            } else {
                searches_backward(v, back.frames, want, (n - 1) as nat, out)
            },
            Ok(None) => out == (Moved {
                frames: back.frames,
                result: Ok::<bool, DefViewErrSpec>(false),
            }),
            Err(e) => out == (Moved { frames: back.frames, result: Err::<bool, DefViewErrSpec>(e) }),
        }
}

/// A backward search that first tries the item at the focus.
pub open spec fn searches_backward_until(
    v: DefViewSpec,
    frames: Seq<Option<int>>,
    want: spec_fn(ItemSpec) -> bool,
    n: nat,
    out: Moved<bool>,
) -> bool {
    match peek(v, frames) {
        Ok(Some(x)) => if want(x) {
            out == (Moved { frames, result: Ok::<bool, DefViewErrSpec>(true) })
        } else {
            searches_backward(v, frames, want, n, out)
        },
        Ok(None) => searches_backward(v, frames, want, n, out),
        Err(e) => out == (Moved { frames, result: Err::<bool, DefViewErrSpec>(e) }),
    }
}

/// Drilling in from given frames has one outcome.
pub proof fn lemma_drills_unique(
    v: DefViewSpec,
    frames: Seq<Option<int>>,
    d1: Moved<()>,
    d2: Moved<()>,
)
    requires
        drills_to(v, frames, d1),
        drills_to(v, frames, d2),
    ensures
        d1 == d2,
    decreases d1.frames.len() + 1 - frames.len(),
{
    match peek_top(v, frames) {
        Ok(Some(item)) => {
            lemma_drills_unique(v, frames.push(end_index(item)), d1, d2);
        },
        Ok(None) => {
            assert(d1.result == d2.result);
        },
        Err(e) => {},
    }
}

/// A backward step from given frames has one outcome.
pub proof fn lemma_steps_backward_unique(
    v: DefViewSpec,
    frames: Seq<Option<int>>,
    b1: Moved<Option<ItemSpec>>,
    b2: Moved<Option<ItemSpec>>,
)
    requires
        steps_backward(v, frames, b1),
        steps_backward(v, frames, b2),
    ensures
        b1 == b2,
{
    if frames.len() > 0 {
        let retreated = with_top(frames, prev_index(frames.last()));
        match peek(v, retreated) {
            Ok(Some(_)) => {
                let d1 = choose|deep: Moved<()>| #[trigger]
                    drills_to(v, retreated, deep) && b1.frames == deep.frames && b1.result
                        == match deep.result {
                        Ok(_) => peek_top(v, deep.frames),
                        Err(e) => Err(e),
                    };
                let d2 = choose|deep: Moved<()>| #[trigger]
                    drills_to(v, retreated, deep) && b2.frames == deep.frames && b2.result
                        == match deep.result {
                        Ok(_) => peek_top(v, deep.frames),
                        Err(e) => Err(e),
                    };
                lemma_drills_unique(v, retreated, d1, d2);
            },
            _ => {},
        }
    }
}

/// The kinds of keysymbol that the positional queries look for.
#[derive(Clone, Copy, Debug, PartialEq, Eq)]
pub enum KeysymbolClass {
    Any,
    Consonant,
    Vowel,
}

/// Whether `y` is a keysymbol of the class `class`.
pub open spec fn is_of_class(class: KeysymbolClass, y: ItemSpec) -> bool {
    match y {
        ItemSpec::Keysymbol(k) => match class {
            KeysymbolClass::Any => true,
            KeysymbolClass::Consonant => k.is_consonant(),
            KeysymbolClass::Vowel => k.is_vowel(),
        },
        _ => false,
    }
}

/// The keysymbols of a class, as a predicate on item values.
pub open spec fn class_items(class: KeysymbolClass) -> spec_fn(ItemSpec) -> bool {
    |y: ItemSpec| is_of_class(class, y)
}

/// A search from the start of the view ends as `out` says.
pub open spec fn searches_from_start(
    v: DefViewSpec,
    want: spec_fn(ItemSpec) -> bool,
    n: nat,
    out: Moved<bool>,
) -> bool {
    searches_forward(v, seq![None::<int>], want, n, out)
}

/// A search from the end of the view ends as `out` says: the cursor drills
/// in backward from the last child of the root, tries the item it arrives
/// at, and searches backward from there.
pub open spec fn searches_from_end(
    v: DefViewSpec,
    want: spec_fn(ItemSpec) -> bool,
    n: nat,
    out: Moved<bool>,
) -> bool {
    exists|deep: Moved<()>| #[trigger]
        drills_to(v, seq![end_index(v.root_item())], deep) && match deep.result {
            Ok(_) => searches_backward_until(v, deep.frames, want, n, out),
            Err(e) => out == (Moved { frames: deep.frames, result: Err::<bool, DefViewErrSpec>(e) }),
        }
}

/// Whether `pred` answers every keysymbol, and answers alike for
/// keysymbols of the same value.
pub open spec fn decides_keysymbols<F: Fn(&Keysymbol) -> bool>(pred: F) -> bool {
    &&& forall|k: &Keysymbol| #[trigger] pred.requires((k,))
    &&& forall|k1: &Keysymbol, k2: &Keysymbol, b1: bool, b2: bool|
        k1@ == k2@ && #[trigger] pred.ensures((k1,), b1) && #[trigger] pred.ensures((k2,), b2)
            ==> b1 == b2
}

/// The keysymbol items that `pred` accepts, as a predicate on item values.
pub open spec fn keysymbol_acceptance<F: Fn(&Keysymbol) -> bool>(pred: F) -> spec_fn(
    ItemSpec,
) -> bool {
    |y: ItemSpec|
        exists|it: DefViewItemRef|
            it@ == y && it is Keysymbol && #[trigger] pred.ensures((it->Keysymbol_0,), true)
}

/// The value of the outcome of a search.
pub open spec fn search_view(r: Result<Option<DefViewCursor>, DefViewErr>) -> Result<
    bool,
    DefViewErrSpec,
> {
    match r {
        Ok(Some(_)) => Ok(true),
        Ok(None) => Ok(false),
        Err(e) => Err(e@),
    }
}

/// A test on items, with the predicate on item values that it computes.
pub trait ItemTest<'a> {
    /// What must hold of the test before it is applied.
    spec fn ready(&self) -> bool;

    /// The item values that the test accepts.
    spec fn want(&self) -> spec_fn(ItemSpec) -> bool;

    fn test(&self, item: DefViewItemRef<'a>) -> (b: bool)
        requires
            self.ready(),
        ensures
            b == self.want()(item@),
    ;
}

/// The test that applies a predicate on items.
pub struct ByItem<F>(pub F);

impl<'a, F: Fn(DefViewItemRef<'a>) -> bool> ItemTest<'a> for ByItem<F> {
    open spec fn ready(&self) -> bool {
        decides(self.0)
    }

    open spec fn want(&self) -> spec_fn(ItemSpec) -> bool {
        acceptance(self.0)
    }

    fn test(&self, item: DefViewItemRef<'a>) -> (b: bool) {
        let b = (self.0)(item);
        proof {
            assert(acceptance(self.0)(item@) == b);
        }
        b
    }
}

/// The test that applies a predicate on keysymbols, and rejects every
/// other item.
pub struct ByKeysymbol<F>(pub F);

impl<'a, F: Fn(&Keysymbol) -> bool> ItemTest<'a> for ByKeysymbol<F> {
    open spec fn ready(&self) -> bool {
        decides_keysymbols(self.0)
    }

    open spec fn want(&self) -> spec_fn(ItemSpec) -> bool {
        keysymbol_acceptance(self.0)
    }

    fn test(&self, item: DefViewItemRef<'a>) -> (b: bool) {
        match item {
            DefViewItemRef::Keysymbol(keysymbol) => {
                let b = (self.0)(keysymbol);
                proof {
                    assert(keysymbol_acceptance(self.0)(item@) == b);
                }
                b
            },
            _ => false,
        }
    }
}

/// The test for keysymbols of a class.
pub struct ByClass(pub KeysymbolClass);

impl<'a> ItemTest<'a> for ByClass {
    open spec fn ready(&self) -> bool {
        true
    }

    open spec fn want(&self) -> spec_fn(ItemSpec) -> bool {
        class_items(self.0)
    }

    fn test(&self, item: DefViewItemRef<'a>) -> (b: bool) {
        match item {
            DefViewItemRef::Keysymbol(keysymbol) => match self.0 {
                KeysymbolClass::Any => true,
                KeysymbolClass::Consonant => keysymbol.is_consonant(),
                KeysymbolClass::Vowel => keysymbol.is_vowel(),
            },
            _ => false,
        }
    }
}

/// What a search hands back agrees with the outcome `out`.
pub open spec fn search_agrees(
    v: DefViewSpec,
    r: Result<Option<DefViewCursor>, DefViewErr>,
    out: Moved<bool>,
) -> bool {
    &&& out.result == search_view(r)
    &&& r matches Ok(Some(c)) ==> c.wf() && c.target() == v && c.frames() == out.frames
}

/// Moves `cursor` forward to the first item that `test` accepts.
pub fn seek_after<'a, 'v, T: ItemTest<'a>>(cursor: DefViewCursor<'a, 'v>, test: &T) -> (r: Result<
    Option<DefViewCursor<'a, 'v>>,
    DefViewErr,
>)
    requires
        cursor.wf(),
        test.ready(),
    ensures
        exists|n: nat, out: Moved<bool>| #[trigger]
            searches_forward(cursor.target(), cursor.frames(), test.want(), n, out)
                && search_agrees(cursor.target(), r, out),
{
    let ghost v = cursor.target();
    let ghost want = test.want();
    let ghost start = cursor.frames();
    let ghost mut steps: nat = 0;
    let mut cur = cursor;
    loop
        invariant
            cur.wf(),
            cur.target() == v,
            v == cursor.target(),
            start == cursor.frames(),
            test.ready(),
            want == test.want(),
            forall|n: nat, out: Moved<bool>| #[trigger]
                searches_forward(v, cur.frames(), want, n, out) ==> searches_forward(
                    v,
                    start,
                    want,
                    n + steps,
                    out,
                ),
        decreases weight(limit()) - rank(cur.frames()),
    {
        let ghost before = cur.frames();
        proof {
            cur.lemma_bounded();
        }
        match cur.step_forward() {
            Ok(Some(item_ref)) => {
                proof {
                    cur.lemma_bounded();
                    lemma_step_forward_rank(v, before);
                    lemma_rank_bound(cur.frames());
                }
                if test.test(item_ref) {
                    proof {
                        let out = Moved {
                            frames: cur.frames(),
                            result: Ok::<bool, DefViewErrSpec>(true),
                        };
                        assert(searches_forward(v, before, want, 1, out));
                        assert(searches_forward(v, start, want, 1 + steps, out));
                    }
                    return Ok(Some(cur));
                }
                proof {
                    assert forall|n: nat, out: Moved<bool>| #[trigger]
                        searches_forward(v, cur.frames(), want, n, out) implies searches_forward(
                        v,
                        start,
                        want,
                        n + (steps + 1),
                        out,
                    ) by {
                        assert(searches_forward(v, before, want, n + 1, out));
                        assert(n + 1 + steps == n + (steps + 1));
                    }
                    steps = steps + 1;
                }
            },
            Ok(None) => {
                proof {
                    let out = Moved {
                        frames: cur.frames(),
                        result: Ok::<bool, DefViewErrSpec>(false),
                    };
                    assert(searches_forward(v, before, want, 1, out));
                    assert(searches_forward(v, start, want, 1 + steps, out));
                }
                return Ok(None);
            },
            Err(e) => {
                proof {
                    let out = Moved {
                        frames: cur.frames(),
                        result: Err::<bool, DefViewErrSpec>(e@),
                    };
                    assert(searches_forward(v, before, want, 1, out));
                    assert(searches_forward(v, start, want, 1 + steps, out));
                }
                return Err(e);
            },
        }
    }
}

/// Moves `cursor` backward to the last item before it that `test` accepts.
pub fn seek_before<'a, 'v, T: ItemTest<'a>>(cursor: DefViewCursor<'a, 'v>, test: &T) -> (r: Result<
    Option<DefViewCursor<'a, 'v>>,
    DefViewErr,
>)
    requires
        cursor.wf(),
        test.ready(),
    ensures
        exists|n: nat, out: Moved<bool>| #[trigger]
            searches_backward(cursor.target(), cursor.frames(), test.want(), n, out)
                && search_agrees(cursor.target(), r, out),
{
    let ghost v = cursor.target();
    let ghost want = test.want();
    let ghost start = cursor.frames();
    let ghost mut steps: nat = 0;
    let mut cur = cursor;
    loop
        invariant
            cur.wf(),
            cur.target() == v,
            v == cursor.target(),
            start == cursor.frames(),
            test.ready(),
            want == test.want(),
            forall|n: nat, out: Moved<bool>| #[trigger]
                searches_backward(v, cur.frames(), want, n, out) ==> searches_backward(
                    v,
                    start,
                    want,
                    n + steps,
                    out,
                ),
        decreases rank(cur.frames()),
    {
        let ghost before = cur.frames();
        proof {
            cur.lemma_bounded();
        }
        let found = cur.step_backward();
        let ghost actual = Moved { frames: cur.frames(), result: item_result_view(found) };
        match found {
            Ok(Some(item_ref)) => {
                proof {
                    cur.lemma_bounded();
                    lemma_step_backward_rank(v, before, actual);
                }
                if test.test(item_ref) {
                    proof {
                        let out = Moved {
                            frames: cur.frames(),
                            result: Ok::<bool, DefViewErrSpec>(true),
                        };
                        assert(searches_backward(v, before, want, 1, out));
                        assert(searches_backward(v, start, want, 1 + steps, out));
                    }
                    return Ok(Some(cur));
                }
                proof {
                    assert forall|n: nat, out: Moved<bool>| #[trigger]
                        searches_backward(v, cur.frames(), want, n, out) implies searches_backward(
                        v,
                        start,
                        want,
                        n + (steps + 1),
                        out,
                    ) by {
                        assert(steps_backward(v, before, actual));
                        assert(searches_backward(v, before, want, n + 1, out));
                        assert(n + 1 + steps == n + (steps + 1));
                    }
                    steps = steps + 1;
                }
            },
            Ok(None) => {
                proof {
                    let out = Moved {
                        frames: cur.frames(),
                        result: Ok::<bool, DefViewErrSpec>(false),
                    };
                    assert(steps_backward(v, before, actual));
                    assert(searches_backward(v, before, want, 1, out));
                    assert(searches_backward(v, start, want, 1 + steps, out));
                }
                return Ok(None);
            },
            Err(e) => {
                proof {
                    let out = Moved {
                        frames: cur.frames(),
                        result: Err::<bool, DefViewErrSpec>(e@),
                    };
                    assert(steps_backward(v, before, actual));
                    assert(searches_backward(v, before, want, 1, out));
                    assert(searches_backward(v, start, want, 1 + steps, out));
                }
                return Err(e);
            },
        }
    }
}

/// Tries the item at the focus, then searches forward.
pub fn seek_since<'a, 'v, T: ItemTest<'a>>(cursor: DefViewCursor<'a, 'v>, test: &T) -> (r: Result<
    Option<DefViewCursor<'a, 'v>>,
    DefViewErr,
>)
    requires
        cursor.wf(),
        test.ready(),
    ensures
        exists|n: nat, out: Moved<bool>| #[trigger]
            searches_forward_since(cursor.target(), cursor.frames(), test.want(), n, out)
                && search_agrees(cursor.target(), r, out),
{
    match cursor.peek() {
        Ok(Some(item_ref)) => {
            if test.test(item_ref) {
                proof {
                    let out = Moved {
                        frames: cursor.frames(),
                        result: Ok::<bool, DefViewErrSpec>(true),
                    };
                    assert(searches_forward_since(
                        cursor.target(),
                        cursor.frames(),
                        test.want(),
                        0,
                        out,
                    ));
                }
                return Ok(Some(cursor));
            }
        },
        Ok(None) => {},
        Err(e) => {
            proof {
                let out = Moved {
                    frames: cursor.frames(),
                    result: Err::<bool, DefViewErrSpec>(e@),
                };
                assert(searches_forward_since(
                    cursor.target(),
                    cursor.frames(),
                    test.want(),
                    0,
                    out,
                ));
            }
            return Err(e);
        },
    }
    let r = seek_after(cursor, test);
    proof {
        let (n, o) = choose|n: nat, o: Moved<bool>| #[trigger]
            searches_forward(cursor.target(), cursor.frames(), test.want(), n, o) && search_agrees(
                cursor.target(),
                r,
                o,
            );
        assert(searches_forward_since(cursor.target(), cursor.frames(), test.want(), n, o));
    }
    r
}

/// Tries the item at the focus, then searches backward.
pub fn seek_until<'a, 'v, T: ItemTest<'a>>(cursor: DefViewCursor<'a, 'v>, test: &T) -> (r: Result<
    Option<DefViewCursor<'a, 'v>>,
    DefViewErr,
>)
    requires
        cursor.wf(),
        test.ready(),
    ensures
        exists|n: nat, out: Moved<bool>| #[trigger]
            searches_backward_until(cursor.target(), cursor.frames(), test.want(), n, out)
                && search_agrees(cursor.target(), r, out),
{
    match cursor.peek() {
        Ok(Some(item_ref)) => {
            if test.test(item_ref) {
                proof {
                    let out = Moved {
                        frames: cursor.frames(),
                        result: Ok::<bool, DefViewErrSpec>(true),
                    };
                    assert(searches_backward_until(
                        cursor.target(),
                        cursor.frames(),
                        test.want(),
                        0,
                        out,
                    ));
                }
                return Ok(Some(cursor));
            }
        },
        Ok(None) => {},
        Err(e) => {
            proof {
                let out = Moved {
                    frames: cursor.frames(),
                    result: Err::<bool, DefViewErrSpec>(e@),
                };
                assert(searches_backward_until(
                    cursor.target(),
                    cursor.frames(),
                    test.want(),
                    0,
                    out,
                ));
            }
            return Err(e);
        },
    }
    let r = seek_before(cursor, test);
    proof {
        let (n, o) = choose|n: nat, o: Moved<bool>| #[trigger]
            searches_backward(cursor.target(), cursor.frames(), test.want(), n, o)
                && search_agrees(cursor.target(), r, o);
        assert(searches_backward_until(cursor.target(), cursor.frames(), test.want(), n, o));
    }
    r
}

/// Searches the whole view forward.
pub fn seek_from_start<'a, 'v, T: ItemTest<'a>>(view: &'v DefView<'a>, test: &T) -> (r: Result<
    Option<DefViewCursor<'a, 'v>>,
    DefViewErr,
>) where 'v: 'a
    requires
        test.ready(),
    ensures
        exists|n: nat, out: Moved<bool>| #[trigger]
            searches_from_start(view@, test.want(), n, out) && search_agrees(view@, r, out),
{
    let cursor = DefViewCursor::of_view_at_start(view);
    let r = seek_since(cursor, test);
    proof {
        let (n, o) = choose|n: nat, o: Moved<bool>| #[trigger]
            searches_forward_since(view@, cursor.frames(), test.want(), n, o) && search_agrees(
                view@,
                r,
                o,
            );
        assert(searches_from_start(view@, test.want(), n, o));
    }
    r
}

/// Searches the whole view backward.
pub fn seek_from_end<'a, 'v, T: ItemTest<'a>>(view: &'v DefView<'a>, test: &T) -> (r: Result<
    Option<DefViewCursor<'a, 'v>>,
    DefViewErr,
>) where 'v: 'a
    requires
        test.ready(),
    ensures
        exists|n: nat, out: Moved<bool>| #[trigger]
            searches_from_end(view@, test.want(), n, out) && search_agrees(view@, r, out),
{
    let ghost v = view@;
    let ghost want = test.want();
    match DefViewCursor::of_view_at_end(view) {
        Ok(cursor) => {
            let r = seek_until(cursor, test);
            proof {
                let (n, o) = choose|n: nat, o: Moved<bool>| #[trigger]
                    searches_backward_until(v, cursor.frames(), want, n, o) && search_agrees(
                        v,
                        r,
                        o,
                    );
                let deep = Moved { frames: cursor.frames(), result: Ok::<(), DefViewErrSpec>(()) };
                assert(drills_to(v, seq![end_index(v.root_item())], deep));
                assert(searches_from_end(v, want, n, o));
            }
            r
        },
        Err(e) => {
            proof {
                let frames = choose|frames: Seq<Option<int>>| #[trigger]
                    drills_to(
                        v,
                        seq![end_index(v.root_item())],
                        Moved { frames, result: Err::<(), DefViewErrSpec>(e@) },
                    );
                let deep = Moved { frames, result: Err::<(), DefViewErrSpec>(e@) };
                assert(drills_to(v, seq![end_index(v.root_item())], deep));
                assert(searches_from_end(
                    v,
                    want,
                    0,
                    Moved { frames, result: Err::<bool, DefViewErrSpec>(e@) },
                ));
            }
            Err(e)
        },
    }
}

impl<'a> DefView<'a> {
    /// The cursor on the first item after `cursor` that `predicate`
    /// accepts.
    pub fn first_index_after<'v, F: Fn(DefViewItemRef<'a>) -> bool>(
        &self,
        cursor: DefViewCursor<'a, 'v>,
        predicate: F,
    ) -> (r: Result<Option<DefViewCursor<'a, 'v>>, DefViewErr>)
        requires
            cursor.wf(),
            decides(predicate),
        ensures
            exists|n: nat, out: Moved<bool>| #[trigger]
                searches_forward(cursor.target(), cursor.frames(), acceptance(predicate), n, out)
                    && search_agrees(cursor.target(), r, out),
    {
        seek_after(cursor, &ByItem(predicate))
    }

    /// The cursor on the last item before `cursor` that `predicate` accepts.
    pub fn last_index_before<'v, F: Fn(DefViewItemRef<'a>) -> bool>(
        &self,
        cursor: DefViewCursor<'a, 'v>,
        predicate: F,
    ) -> (r: Result<Option<DefViewCursor<'a, 'v>>, DefViewErr>)
        requires
            cursor.wf(),
            decides(predicate),
        ensures
            exists|n: nat, out: Moved<bool>| #[trigger]
                searches_backward(cursor.target(), cursor.frames(), acceptance(predicate), n, out)
                    && search_agrees(cursor.target(), r, out),
    {
        seek_before(cursor, &ByItem(predicate))
    }

    /// The cursor on the first item at or after `cursor` that `predicate`
    /// accepts.
    pub fn first_index_since<'v, F: Fn(DefViewItemRef<'a>) -> bool>(
        &self,
        cursor: DefViewCursor<'a, 'v>,
        predicate: F,
    ) -> (r: Result<Option<DefViewCursor<'a, 'v>>, DefViewErr>)
        requires
            cursor.wf(),
            decides(predicate),
        ensures
            exists|n: nat, out: Moved<bool>| #[trigger]
                searches_forward_since(
                    cursor.target(),
                    cursor.frames(),
                    acceptance(predicate),
                    n,
                    out,
                ) && search_agrees(cursor.target(), r, out),
    {
        seek_since(cursor, &ByItem(predicate))
    }

    /// The cursor on the last item at or before `cursor` that `predicate`
    /// accepts.
    pub fn last_index_until<'v, F: Fn(DefViewItemRef<'a>) -> bool>(
        &self,
        cursor: DefViewCursor<'a, 'v>,
        predicate: F,
    ) -> (r: Result<Option<DefViewCursor<'a, 'v>>, DefViewErr>)
        requires
            cursor.wf(),
            decides(predicate),
        ensures
            exists|n: nat, out: Moved<bool>| #[trigger]
                searches_backward_until(
                    cursor.target(),
                    cursor.frames(),
                    acceptance(predicate),
                    n,
                    out,
                ) && search_agrees(cursor.target(), r, out),
    {
        seek_until(cursor, &ByItem(predicate))
    }

    /// The cursor on the first item of the view that `predicate` accepts.
    pub fn first_index<'v, F: Fn(DefViewItemRef<'a>) -> bool>(&'v self, predicate: F) -> (r: Result<
        Option<DefViewCursor<'a, 'v>>,
        DefViewErr,
    >) where 'v: 'a
        requires
            decides(predicate),
        ensures
            exists|n: nat, out: Moved<bool>| #[trigger]
                searches_from_start(self@, acceptance(predicate), n, out) && search_agrees(
                    self@,
                    r,
                    out,
                ),
    {
        seek_from_start(self, &ByItem(predicate))
    }

    /// The cursor on the last item of the view that `predicate` accepts.
    pub fn last_index<'v, F: Fn(DefViewItemRef<'a>) -> bool>(&'v self, predicate: F) -> (r: Result<
        Option<DefViewCursor<'a, 'v>>,
        DefViewErr,
    >) where 'v: 'a
        requires
            decides(predicate),
        ensures
            exists|n: nat, out: Moved<bool>| #[trigger]
                searches_from_end(self@, acceptance(predicate), n, out) && search_agrees(
                    self@,
                    r,
                    out,
                ),
    {
        seek_from_end(self, &ByItem(predicate))
    }

    /// The cursor on the first keysymbol of the view that `predicate`
    /// accepts.
    pub fn first_keysymbol_cur<'v, F: Fn(&Keysymbol) -> bool>(&'v self, predicate: F) -> (r: Result<
        Option<DefViewCursor<'a, 'v>>,
        DefViewErr,
    >) where 'v: 'a
        requires
            decides_keysymbols(predicate),
        ensures
            exists|n: nat, out: Moved<bool>| #[trigger]
                searches_from_start(self@, keysymbol_acceptance(predicate), n, out)
                    && search_agrees(self@, r, out),
    {
        seek_from_start(self, &ByKeysymbol(predicate))
    }

    /// The cursor on the last keysymbol of the view that `predicate`
    /// accepts.
    pub fn last_keysymbol_cur<'v, F: Fn(&Keysymbol) -> bool>(&'v self, predicate: F) -> (r: Result<
        Option<DefViewCursor<'a, 'v>>,
        DefViewErr,
    >) where 'v: 'a
        requires
            decides_keysymbols(predicate),
        ensures
            exists|n: nat, out: Moved<bool>| #[trigger]
                searches_from_end(self@, keysymbol_acceptance(predicate), n, out) && search_agrees(
                    self@,
                    r,
                    out,
                ),
    {
        seek_from_end(self, &ByKeysymbol(predicate))
    }

    /// The cursor on the first keysymbol of the class `class`.
    pub fn first_of_class<'v>(&'v self, class: KeysymbolClass) -> (r: Result<
        Option<DefViewCursor<'a, 'v>>,
        DefViewErr,
    >) where 'v: 'a
        ensures
            exists|n: nat, out: Moved<bool>| #[trigger]
                searches_from_start(self@, class_items(class), n, out) && search_agrees(
                    self@,
                    r,
                    out,
                ),
    {
        seek_from_start(self, &ByClass(class))
    }

    /// The cursor on the last keysymbol of the class `class`.
    pub fn last_of_class<'v>(&'v self, class: KeysymbolClass) -> (r: Result<
        Option<DefViewCursor<'a, 'v>>,
        DefViewErr,
    >) where 'v: 'a
        ensures
            exists|n: nat, out: Moved<bool>| #[trigger]
                searches_from_end(self@, class_items(class), n, out) && search_agrees(self@, r, out),
    {
        seek_from_end(self, &ByClass(class))
    }

    pub fn first_consonant_cur<'v>(&'v self) -> (r: Result<
        Option<DefViewCursor<'a, 'v>>,
        DefViewErr,
    >) where 'v: 'a
        ensures
            exists|n: nat, out: Moved<bool>| #[trigger]
                searches_from_start(self@, class_items(KeysymbolClass::Consonant), n, out)
                    && search_agrees(self@, r, out),
    {
        self.first_of_class(KeysymbolClass::Consonant)
    }

    pub fn last_consonant_cur<'v>(&'v self) -> (r: Result<
        Option<DefViewCursor<'a, 'v>>,
        DefViewErr,
    >) where 'v: 'a
        ensures
            exists|n: nat, out: Moved<bool>| #[trigger]
                searches_from_end(self@, class_items(KeysymbolClass::Consonant), n, out)
                    && search_agrees(self@, r, out),
    {
        self.last_of_class(KeysymbolClass::Consonant)
    }

    pub fn first_vowel_cur<'v>(&'v self) -> (r: Result<Option<DefViewCursor<'a, 'v>>, DefViewErr>) where
        'v: 'a,
        ensures
            exists|n: nat, out: Moved<bool>| #[trigger]
                searches_from_start(self@, class_items(KeysymbolClass::Vowel), n, out)
                    && search_agrees(self@, r, out),
    {
        self.first_of_class(KeysymbolClass::Vowel)
    }

    pub fn last_vowel_cur<'v>(&'v self) -> (r: Result<Option<DefViewCursor<'a, 'v>>, DefViewErr>) where
        'v: 'a,
        ensures
            exists|n: nat, out: Moved<bool>| #[trigger]
                searches_from_end(self@, class_items(KeysymbolClass::Vowel), n, out)
                    && search_agrees(self@, r, out),
    {
        self.last_of_class(KeysymbolClass::Vowel)
    }
}

} // verus!
