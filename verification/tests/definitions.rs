use plover_hatchery::cursor::DefViewCursor;
use plover_hatchery::def_view::DefView;
use plover_hatchery::dict::DefDict;
use plover_hatchery::entity::{Def, Entity};
use plover_hatchery::item::{DefViewErr, DefViewItemRef};
use plover_hatchery::keysymbol::{stress_marker, Keysymbol, KeysymbolOptions};
use plover_hatchery::queries::seq_less_than;
use plover_hatchery::rewrite::{add_diphthong_keysymbols, optionalize_keysymbols, optionalized};
use plover_hatchery::scan::KeysymbolClass;
use plover_hatchery::sopheme::Sopheme;
use plover_hatchery::transclusion::Transclusion;

fn k(symbol: &str, stress: u8) -> Keysymbol {
    Keysymbol::new(symbol.to_string(), stress, false)
}

fn optional(symbol: &str) -> Keysymbol {
    Keysymbol::new(symbol.to_string(), 0, true)
}

fn sopheme(chars: &str, keysymbols: Vec<Keysymbol>) -> Entity {
    Entity::Sopheme(Sopheme::new(chars.to_string(), keysymbols))
}

fn transclusion(target: &str, stress: u8) -> Entity {
    Entity::Transclusion(Transclusion::new(target.to_string(), stress))
}

fn cat_dict() -> DefDict {
    let mut dict = DefDict::new();
    dict.add(
        "cat".to_string(),
        vec![
            sopheme("c", vec![k("k", 0)]),
            sopheme("a", vec![k("ae", 1)]),
            sopheme("t", vec![k("t", 0)]),
        ],
    );
    dict
}

fn amphivern_dict() -> DefDict {
    let mut dict = DefDict::new();
    dict.add(
        "amphi".to_string(),
        vec![sopheme("amphi", vec![k("ae", 1), k("m", 0), k("f", 0), k("i", 0)])],
    );
    dict.add("vern".to_string(), vec![sopheme("vern", vec![k("v", 0), k("@@r", 0), k("n", 0)])]);
    dict.add("amphivern".to_string(), vec![transclusion("amphi", 1), transclusion("vern", 2)]);
    dict
}

fn knight_dict() -> DefDict {
    let mut dict = DefDict::new();
    dict.add(
        "knight".to_string(),
        vec![
            sopheme("k", vec![optional("k")]),
            sopheme("n", vec![k("n", 0)]),
            sopheme("igh", vec![k("ai", 1)]),
            sopheme("t", vec![k("t", 0)]),
            sopheme("e", vec![]),
        ],
    );
    dict
}

fn walk_forward(view: &DefView) -> Vec<Vec<usize>> {
    let mut cursor = DefViewCursor::of_view_at_start(view);
    let mut visited = Vec::new();
    while let Ok(Some(_)) = cursor.step_forward() {
        visited.push(cursor.index_stack());
    }
    visited
}

#[test]
fn translation_of_plain_definition() {
    let dict = cat_dict();
    let view = DefView::get_entry(&dict, "cat").unwrap();
    assert_eq!(view.translation().unwrap(), "cat");
    assert_eq!(view.collect_sophemes().unwrap().items.len(), 3);
}

#[test]
fn translation_through_transclusions() {
    let dict = amphivern_dict();
    let view = DefView::get_entry(&dict, "amphivern").unwrap();
    assert_eq!(view.translation().unwrap(), "amphivern");
    let sophemes = view.collect_sophemes().unwrap();
    assert_eq!(sophemes.items.len(), 2);
    assert_eq!(sophemes.items[0].chars, "amphi");
    assert_eq!(sophemes.items[1].chars, "vern");
}

#[test]
fn translation_is_concatenation_of_sopheme_spellings() {
    let dict = amphivern_dict();
    for name in ["amphi", "vern", "amphivern"] {
        let view = DefView::get_entry(&dict, name).unwrap();
        let concatenated: String =
            view.collect_sophemes().unwrap().items.iter().map(|s| s.chars.clone()).collect();
        assert_eq!(view.translation().unwrap(), concatenated);
    }
}

#[test]
fn inlined_definitions_are_expanded() {
    let dict = cat_dict();
    let inner = Def::new(vec![sopheme("s", vec![k("z", 0)])], "plural".to_string());
    let root = Def::new(
        vec![transclusion("cat", 0), Entity::RawDef(inner)],
        "cats".to_string(),
    );
    let view = DefView::new_ref(&dict, &root);
    assert_eq!(view.translation().unwrap(), "cats");
    assert_eq!(view.collect_sophemes().unwrap().items.len(), 4);
    assert_eq!(root.to_string(), "cats = {cat} (plural = s.z)");
}

#[test]
fn cycle_is_reported() {
    let mut dict = DefDict::new();
    dict.add("a".to_string(), vec![transclusion("b", 0)]);
    dict.add("b".to_string(), vec![transclusion("a", 0)]);
    let view = DefView::get_entry(&dict, "a").unwrap();
    match view.collect_sophemes() {
        Err(DefViewErr::CircularDependency { def_varname, varname }) => {
            assert_eq!(def_varname, "a");
            assert_eq!(varname, "a");
        }
        _ => panic!("expected a circular dependency"),
    }
}

#[test]
fn self_reference_is_circular() {
    let mut dict = DefDict::new();
    dict.add("a".to_string(), vec![sopheme("x", vec![]), transclusion("a", 0)]);
    let view = DefView::get_entry(&dict, "a").unwrap();
    assert!(matches!(view.collect_sophemes(), Err(DefViewErr::CircularDependency { .. })));
    assert!(matches!(view.translation(), Err(DefViewErr::CircularDependency { .. })));
}

#[test]
fn shared_definitions_are_no_cycle() {
    let mut dict = cat_dict();
    dict.add("catcat".to_string(), vec![transclusion("cat", 0), transclusion("cat", 0)]);
    let view = DefView::get_entry(&dict, "catcat").unwrap();
    assert_eq!(view.translation().unwrap(), "catcat");
}

#[test]
fn missing_entry_only_on_descent() {
    let dict = DefDict::new();
    let root = Def::new(vec![transclusion("gone", 0)], "word".to_string());
    let view = DefView::new(&dict, root);
    assert!(matches!(view.read(&[]), Ok(Some(DefViewItemRef::Def(_)))));
    match view.collect_sophemes() {
        Err(DefViewErr::MissingEntry { varname }) => assert_eq!(varname, "gone"),
        _ => panic!("expected a missing entry"),
    }
    match view.translation() {
        Err(DefViewErr::MissingEntry { varname }) => assert_eq!(varname, "gone"),
        _ => panic!("expected a missing entry"),
    }
    let mut cursor = DefViewCursor::of_view_at_start(&view);
    assert!(matches!(cursor.peek(), Ok(None)));
    match cursor.step_forward() {
        Err(DefViewErr::MissingEntry { varname }) => assert_eq!(varname, "gone"),
        _ => panic!("expected a missing entry"),
    }
    assert!(matches!(view.read(&[0]), Err(DefViewErr::MissingEntry { .. })));
    assert!(matches!(DefView::get_entry(&dict, "gone"), Err(DefViewErr::MissingEntry { .. })));
}

#[test]
fn error_messages() {
    assert_eq!(
        DefViewErr::MissingEntry { varname: "gone".to_string() }.message(),
        "There is no entry for \"gone\""
    );
    assert_eq!(DefViewErr::EmptyStack.message(), "Cursor stack is empty");
    assert_eq!(
        DefViewErr::UnexpectedNone.message(),
        "Expected this cursor to be pointing to an item"
    );
    assert_eq!(
        DefViewErr::CircularDependency { def_varname: "a".to_string(), varname: "b".to_string() }
            .message(),
        "Definition for \"a\" contains a circular dependency \"b\""
    );
    assert_eq!(DefViewErr::UnexpectedChildItemType.message(), "Unexpected child item type");
}

#[test]
fn forward_walk_is_depth_first_preorder() {
    let dict = cat_dict();
    let view = DefView::get_entry(&dict, "cat").unwrap();
    assert_eq!(
        walk_forward(&view),
        vec![vec![0], vec![0, 0], vec![1], vec![1, 0], vec![2], vec![2, 0]]
    );
    let dict = amphivern_dict();
    let view = DefView::get_entry(&dict, "amphivern").unwrap();
    assert_eq!(
        walk_forward(&view),
        vec![
            vec![0],
            vec![0, 0],
            vec![0, 0, 0],
            vec![0, 0, 1],
            vec![0, 0, 2],
            vec![0, 0, 3],
            vec![1],
            vec![1, 0],
            vec![1, 0, 0],
            vec![1, 0, 1],
            vec![1, 0, 2],
        ]
    );
}

#[test]
fn cursor_steps_backward() {
    let dict = cat_dict();
    let view = DefView::get_entry(&dict, "cat").unwrap();
    let mut cursor =
        DefViewCursor::with_index_stack(&view, &[Some(2), Some(0)]).unwrap().unwrap();
    assert_eq!(cursor.index_stack(), vec![2, 0]);
    assert!(matches!(cursor.step_backward(), Ok(Some(DefViewItemRef::Sopheme(_)))));
    assert_eq!(cursor.index_stack(), vec![2]);
    match cursor.step_backward() {
        Ok(Some(DefViewItemRef::Keysymbol(keysymbol))) => {
            assert_eq!(keysymbol.symbol(), "ae");
            assert_eq!(keysymbol.stress(), 1);
        }
        _ => panic!("expected a keysymbol"),
    }
    assert_eq!(cursor.index_stack(), vec![1, 0]);
}

#[test]
fn backward_step_undoes_forward_step() {
    let dict = amphivern_dict();
    let view = DefView::get_entry(&dict, "amphivern").unwrap();
    let mut cursor = DefViewCursor::of_view_at_start(&view);
    loop {
        let before = cursor.index_stack();
        let mut ahead = cursor.clone();
        match ahead.step_forward() {
            Ok(Some(_)) => {}
            _ => break,
        }
        assert!(ahead.step_backward().is_ok());
        assert_eq!(ahead.index_stack(), before);
        assert!(matches!(cursor.step_forward(), Ok(Some(_))));
    }
    assert_eq!(cursor.index_stack(), vec![1, 0, 2]);
}

#[test]
fn backward_walk_reverses_forward_walk() {
    let dict = amphivern_dict();
    let view = DefView::get_entry(&dict, "amphivern").unwrap();
    let mut forward = walk_forward(&view);
    let mut cursor = DefViewCursor::of_view_at_end(&view).unwrap();
    let mut backward = vec![cursor.index_stack()];
    while let Ok(Some(_)) = cursor.step_backward() {
        backward.push(cursor.index_stack());
    }
    forward.reverse();
    assert_eq!(backward, forward);
}

#[test]
fn reading_the_index_stack_yields_the_focus() {
    let dict = amphivern_dict();
    let view = DefView::get_entry(&dict, "amphivern").unwrap();
    let mut cursor = DefViewCursor::of_view_at_start(&view);
    let mut steps = 0;
    while let Ok(Some(item)) = cursor.step_forward() {
        let read = view.read(&cursor.index_stack()).unwrap().unwrap();
        match (item, read, cursor.peek().unwrap().unwrap()) {
            (
                DefViewItemRef::Keysymbol(a),
                DefViewItemRef::Keysymbol(b),
                DefViewItemRef::Keysymbol(c),
            ) => {
                assert!(std::ptr::eq(a, b));
                assert!(std::ptr::eq(a, c));
            }
            (
                DefViewItemRef::Sopheme(a),
                DefViewItemRef::Sopheme(b),
                DefViewItemRef::Sopheme(c),
            ) => {
                assert!(std::ptr::eq(a, b));
                assert!(std::ptr::eq(a, c));
            }
            (
                DefViewItemRef::EntitySeq(a, x),
                DefViewItemRef::EntitySeq(b, y),
                DefViewItemRef::EntitySeq(c, z),
            ) => {
                assert!(std::ptr::eq(a, b));
                assert!(std::ptr::eq(a, c));
                assert_eq!(x, y);
                assert_eq!(x, z);
            }
            _ => panic!("the three items differ in kind"),
        }
        steps += 1;
    }
    assert_eq!(steps, 11);
    assert!(matches!(view.get(&[0, 0, 9]), Ok(None)));
    assert!(matches!(view.get(&[5, 0]), Ok(None)));
}

#[test]
fn step_backward_at_start_changes_nothing() {
    let dict = cat_dict();
    let view = DefView::get_entry(&dict, "cat").unwrap();
    let mut cursor = DefViewCursor::of_view_at_start(&view);
    assert!(matches!(cursor.step_backward(), Ok(None)));
    assert_eq!(cursor.stack_len(), 1);
    assert_eq!(cursor.index_stack(), Vec::<usize>::new());
    assert!(matches!(cursor.step_forward(), Ok(Some(DefViewItemRef::Sopheme(_)))));
    assert_eq!(cursor.index_stack(), vec![0]);
    assert!(matches!(cursor.step_backward(), Ok(None)));
    assert_eq!(cursor.stack_len(), 1);
    assert!(matches!(cursor.step_forward(), Ok(Some(DefViewItemRef::Sopheme(_)))));
}

#[test]
fn empty_stack_steps_nowhere() {
    let dict = cat_dict();
    let view = DefView::get_entry(&dict, "cat").unwrap();
    let mut cursor = DefViewCursor::with_index_stack(&view, &[]).unwrap().unwrap();
    assert_eq!(cursor.stack_len(), 0);
    assert!(matches!(cursor.peek(), Ok(Some(DefViewItemRef::Def(_)))));
    assert!(matches!(cursor.step_backward(), Ok(None)));
    assert!(matches!(cursor.step_forward(), Ok(None)));
    assert!(matches!(cursor.step_in_at(Some(0)), Ok(false)));
    assert_eq!(cursor.stack_len(), 0);
}

#[test]
fn stepping_in_and_out() {
    let dict = cat_dict();
    let view = DefView::get_entry(&dict, "cat").unwrap();
    let mut cursor = DefViewCursor::with_index_stack(&view, &[Some(1)]).unwrap().unwrap();
    assert!(matches!(cursor.step_in_at_start(), Ok(true)));
    assert_eq!(cursor.stack_len(), 2);
    assert!(matches!(cursor.peek(), Ok(None)));
    assert_eq!(cursor.index_stack(), vec![1]);
    cursor.step_out();
    assert!(matches!(cursor.step_in_at_end(), Ok(true)));
    assert_eq!(cursor.index_stack(), vec![1, 0]);
    assert!(matches!(cursor.step_in_at_start(), Ok(true)));
    assert!(matches!(cursor.step_in_at_start(), Ok(false)));
    cursor.step_out();
    cursor.step_out();
    assert!(matches!(cursor.step_over_forward(), Ok(Some(DefViewItemRef::Sopheme(_)))));
    assert_eq!(cursor.index_stack(), vec![2]);
    assert!(matches!(cursor.step_over_forward(), Ok(None)));
    assert_eq!(cursor.stack_len(), 0);
    assert!(DefViewCursor::with_index_stack(&view, &[Some(7), Some(0)]).unwrap().is_none());
    assert!(DefViewCursor::with_index_stack(&view, &[None, Some(0)]).unwrap().is_none());
}

#[test]
fn order_of_index_stacks() {
    assert!(seq_less_than(&[0], &[1]));
    assert!(seq_less_than(&[0, 5], &[1]));
    assert!(seq_less_than(&[1], &[1, 0]));
    assert!(seq_less_than(&[], &[0]));
    assert!(!seq_less_than(&[1, 0], &[1]));
    assert!(!seq_less_than(&[1, 0], &[1, 0]));
    assert!(!seq_less_than(&[], &[]));
    assert!(!seq_less_than(&[2], &[1, 9]));
}

#[test]
fn cursors_compare_by_index_stack() {
    let dict = cat_dict();
    let view = DefView::get_entry(&dict, "cat").unwrap();
    let stacks = walk_forward(&view);
    for a in &stacks {
        for b in &stacks {
            let a_indexes: Vec<Option<usize>> = a.iter().map(|i| Some(*i)).collect();
            let b_indexes: Vec<Option<usize>> = b.iter().map(|i| Some(*i)).collect();
            let first = DefViewCursor::with_index_stack(&view, &a_indexes).unwrap().unwrap();
            let second = DefViewCursor::with_index_stack(&view, &b_indexes).unwrap().unwrap();
            assert_eq!(first.occurs_before(Some(second.clone())), a < b);
            assert_eq!(first.occurs_after(Some(second)), a > b);
        }
    }
    let cursor = DefViewCursor::of_view_at_start(&view);
    assert!(cursor.occurs_before(None));
    assert!(cursor.occurs_after(None));
}

#[test]
fn first_and_last_consonants_and_vowels() {
    let dict = cat_dict();
    let view = DefView::get_entry(&dict, "cat").unwrap();
    assert_eq!(view.first_consonant_cur().unwrap().unwrap().index_stack(), vec![0, 0]);
    assert_eq!(view.last_consonant_cur().unwrap().unwrap().index_stack(), vec![2, 0]);
    assert_eq!(view.first_vowel_cur().unwrap().unwrap().index_stack(), vec![1, 0]);
    assert_eq!(view.last_vowel_cur().unwrap().unwrap().index_stack(), vec![1, 0]);
    let anchors = view.anchors().unwrap();
    assert_eq!(anchors.first_consonant, Some(vec![0, 0]));
    assert_eq!(anchors.last_consonant, Some(vec![2, 0]));
    assert_eq!(anchors.first_vowel, Some(vec![1, 0]));
    assert_eq!(anchors.last_vowel, Some(vec![1, 0]));
    assert_eq!(view.first_anchor(KeysymbolClass::Any).unwrap(), Some(vec![0, 0]));
    let cursor = DefViewCursor::with_index_stack(&view, &[Some(1)]).unwrap().unwrap();
    assert!(!cursor.occurs_before_first_consonant().unwrap());
    assert!(cursor.occurs_before_first_vowel().unwrap());
    assert!(!cursor.occurs_after_last_consonant().unwrap());
    assert!(!cursor.occurs_after_last_vowel().unwrap());
    assert!(cursor.occurs_before_anchor(&anchors.last_consonant));
    assert!(cursor.occurs_after_anchor(&anchors.first_consonant));
    assert!(cursor.occurs_before_anchor(&None));
}

#[test]
fn only_vowels_have_no_first_consonant() {
    let mut dict = DefDict::new();
    dict.add(
        "eau".to_string(),
        vec![sopheme("eau", vec![k("ou", 1)]), sopheme("x", vec![k("@", 0), k("ii", 0)])],
    );
    let view = DefView::get_entry(&dict, "eau").unwrap();
    assert!(view.first_consonant_cur().unwrap().is_none());
    assert!(view.last_consonant_cur().unwrap().is_none());
    assert_eq!(view.first_vowel_cur().unwrap().unwrap().index_stack(), vec![0, 0]);
    assert_eq!(view.last_vowel_cur().unwrap().unwrap().index_stack(), vec![1, 1]);
    let cursor = DefViewCursor::of_view_at_start(&view);
    assert!(cursor.occurs_before_first_consonant().unwrap());
    assert!(cursor.occurs_after_last_consonant().unwrap());
}

#[test]
fn searching_with_predicates() {
    let dict = cat_dict();
    let view = DefView::get_entry(&dict, "cat").unwrap();
    let found = view
        .first_index(|item| matches!(item, DefViewItemRef::Sopheme(s) if s.chars == "a"))
        .unwrap()
        .unwrap();
    assert_eq!(found.index_stack(), vec![1]);
    let found = view.last_index(|item| matches!(item, DefViewItemRef::Sopheme(_))).unwrap().unwrap();
    assert_eq!(found.index_stack(), vec![2]);
    let found = view.first_keysymbol_cur(|keysymbol| keysymbol.stress() > 0).unwrap().unwrap();
    assert_eq!(found.index_stack(), vec![1, 0]);
    let found = view.last_keysymbol_cur(|keysymbol| keysymbol.stress() == 0).unwrap().unwrap();
    assert_eq!(found.index_stack(), vec![2, 0]);
    assert!(view.first_keysymbol_cur(|keysymbol| keysymbol.stress() > 1).unwrap().is_none());
    let start = DefViewCursor::with_index_stack(&view, &[Some(1)]).unwrap().unwrap();
    let found = view
        .first_index_since(start.clone(), |item| matches!(item, DefViewItemRef::Sopheme(_)))
        .unwrap()
        .unwrap();
    assert_eq!(found.index_stack(), vec![1]);
    let found = view
        .first_index_after(start.clone(), |item| matches!(item, DefViewItemRef::Sopheme(_)))
        .unwrap()
        .unwrap();
    assert_eq!(found.index_stack(), vec![2]);
    let found = view
        .last_index_before(start.clone(), |item| matches!(item, DefViewItemRef::Sopheme(_)))
        .unwrap()
        .unwrap();
    assert_eq!(found.index_stack(), vec![0]);
    let found = view
        .last_index_until(start, |item| matches!(item, DefViewItemRef::Sopheme(_)))
        .unwrap()
        .unwrap();
    assert_eq!(found.index_stack(), vec![1]);
}

#[test]
fn neighbouring_keysymbols() {
    let dict = cat_dict();
    let view = DefView::get_entry(&dict, "cat").unwrap();
    let cursor = DefViewCursor::with_index_stack(&view, &[Some(1), Some(0)]).unwrap().unwrap();
    assert_eq!(cursor.prev_keysymbol_cur().unwrap().unwrap().index_stack(), vec![0, 0]);
    assert_eq!(cursor.next_keysymbol_cur().unwrap().unwrap().index_stack(), vec![2, 0]);
    let first = DefViewCursor::with_index_stack(&view, &[Some(0), Some(0)]).unwrap().unwrap();
    assert!(first.prev_keysymbol_cur().unwrap().is_none());
    let last = DefViewCursor::with_index_stack(&view, &[Some(2), Some(0)]).unwrap().unwrap();
    assert!(last.next_keysymbol_cur().unwrap().is_none());
}

#[test]
fn walking_every_item() {
    let dict = cat_dict();
    let view = DefView::get_entry(&dict, "cat").unwrap();
    let seen = std::cell::RefCell::new(Vec::new());
    view.foreach(|item, cursor| {
        if let DefViewItemRef::Keysymbol(keysymbol) = item {
            seen.borrow_mut().push((keysymbol.symbol().to_string(), cursor.index_stack()));
        }
    })
    .unwrap();
    assert_eq!(
        seen.into_inner(),
        vec![
            ("k".to_string(), vec![0, 0]),
            ("ae".to_string(), vec![1, 0]),
            ("t".to_string(), vec![2, 0]),
        ]
    );
}

#[test]
fn spelling_with_silent_neighbours() {
    let dict = knight_dict();
    let view = DefView::get_entry(&dict, "knight").unwrap();
    let on_n = DefViewCursor::with_index_stack(&view, &[Some(1)]).unwrap().unwrap();
    assert_eq!(on_n.spelling_including_silent().unwrap(), "kn");
    let on_t = DefViewCursor::with_index_stack(&view, &[Some(3)]).unwrap().unwrap();
    assert_eq!(on_t.spelling_including_silent().unwrap(), "te");
    let on_igh = DefViewCursor::with_index_stack(&view, &[Some(2)]).unwrap().unwrap();
    assert_eq!(on_igh.spelling_including_silent().unwrap(), "igh");
    let on_keysymbol =
        DefViewCursor::with_index_stack(&view, &[Some(1), Some(0)]).unwrap().unwrap();
    assert_eq!(on_keysymbol.spelling_including_silent().unwrap(), "");
    let before_first = DefViewCursor::of_view_at_start(&view);
    assert!(matches!(
        before_first.spelling_including_silent(),
        Err(DefViewErr::UnexpectedNone)
    ));
    assert_eq!(on_n.collect_silent_backward().unwrap(), vec!["k"]);
    assert_eq!(on_t.collect_silent_forward().unwrap(), vec!["e"]);
}

#[test]
fn silence_needs_every_keysymbol_optional() {
    assert!(Sopheme::new("e".to_string(), vec![]).can_be_silent());
    assert!(Sopheme::new("k".to_string(), vec![optional("k")]).can_be_silent());
    assert!(Sopheme::new("gh".to_string(), vec![optional("g"), optional("h")]).can_be_silent());
    assert!(!Sopheme::new("x".to_string(), vec![optional("k"), k("s", 0)]).can_be_silent());
    assert!(!Sopheme::new("c".to_string(), vec![k("k", 0)]).can_be_silent());
}

#[test]
fn base_symbol_drops_digits_and_brackets() {
    let keysymbol = Keysymbol::new("E5".to_string(), 0, false);
    assert_eq!(keysymbol.symbol(), "E5");
    assert_eq!(keysymbol.base_symbol(), "E");
    assert_eq!(Keysymbol::new("[ae]1".to_string(), 0, false).base_symbol(), "ae");
    assert_eq!(Keysymbol::new("k".to_string(), 0, false).base_symbol(), "k");
    assert_eq!(k("ae", 1), k("ae", 1));
    assert_ne!(k("ae", 1), k("ae", 2));
    assert_ne!(k("ae", 1), optional("ae"));
    assert_ne!(
        k("ae", 0),
        Keysymbol::new_with_known_base_symbol("ae".to_string(), "a".to_string(), 0, false)
    );
    let known =
        Keysymbol::new_with_known_base_symbol("x9".to_string(), "y".to_string(), 3, true);
    assert_eq!(known.symbol(), "x9");
    assert_eq!(known.base_symbol(), "y");
    assert_eq!(known.stress(), 3);
    assert!(known.optional());
}

#[test]
fn every_keysymbol_is_vowel_or_consonant() {
    let vowels = [
        "e", "ao", "a", "ah", "oa", "aa", "ar", "eh", "ou", "ouw", "oou", "o", "au", "oo", "or",
        "our", "ii", "iy", "i", "@r", "@", "uh", "u", "uu", "iu", "ei", "ee", "ai", "ae", "aer",
        "aai", "oi", "oir", "ow", "owr", "oow", "ir", "@@r", "er", "eir", "ur", "i@",
    ];
    for symbol in vowels {
        let keysymbol = k(symbol, 0);
        assert!(keysymbol.is_vowel());
        assert!(!keysymbol.is_consonant());
    }
    for symbol in ["k", "t", "ng", "jh", "E", "", "ea", "@@", "r"] {
        let keysymbol = k(symbol, 0);
        assert!(!keysymbol.is_vowel());
        assert!(keysymbol.is_consonant());
    }
    assert!(k("ae2", 2).is_vowel());
    assert!(k("[@]", 0).is_vowel());
}

#[test]
fn written_forms() {
    assert_eq!(stress_marker(0), "");
    assert_eq!(stress_marker(1), "!1");
    assert_eq!(stress_marker(10), "!10");
    assert_eq!(stress_marker(255), "!255");
    assert_eq!(k("k", 0).to_string(), "k");
    assert_eq!(k("ae", 1).to_string(), "ae!1");
    assert_eq!(Keysymbol::new("@".to_string(), 2, true).to_string(), "@!2?");
    assert_eq!(Keysymbol::new("h".to_string(), 0, true).to_string(), "h?");
    assert_eq!(Sopheme::new("c".to_string(), vec![k("k", 0)]).to_string(), "c.k");
    assert_eq!(Sopheme::new("x".to_string(), vec![k("g", 0), k("z", 0)]).to_string(), "x.(g z)");
    assert_eq!(Sopheme::new("e".to_string(), vec![]).to_string(), "e.");
    assert_eq!(Transclusion::new("vern".to_string(), 0).to_string(), "{vern}");
    assert_eq!(Transclusion::new("vern".to_string(), 2).to_string(), "{vern}!2");
    assert_eq!(transclusion("amphi", 1).to_string(), "{amphi}!1");
    assert_eq!(Def::empty("nil".to_string()).to_string(), "nil = ");
    let leaves = KeysymbolOptions::Leaves(vec![k("@@r", 1), k("r", 0)]);
    assert!(leaves.needs_grouping());
    assert_eq!(leaves.to_string(), "(@@r!1 r)");
    let options = KeysymbolOptions::Options(vec![leaves, KeysymbolOptions::Leaf(k("uh", 0))]);
    assert_eq!(options.to_string(), "((@@r!1 r) | uh)");
    assert!(!KeysymbolOptions::Leaf(k("uh", 0)).needs_grouping());
    assert_eq!(KeysymbolOptions::Options(vec![KeysymbolOptions::Leaf(k("a", 0))]).to_string(), "a");
}

#[test]
fn dictionary_binds_names() {
    let mut dict = DefDict::new();
    assert!(dict.get("cat").is_none());
    dict.add("cat".to_string(), vec![sopheme("c", vec![k("k", 0)])]);
    dict.add("dog".to_string(), vec![]);
    assert_eq!(dict.get("cat").unwrap().len(), 1);
    assert_eq!(dict.get("dog").unwrap().len(), 0);
    dict.add("cat".to_string(), vec![sopheme("c", vec![]), sopheme("at", vec![])]);
    assert_eq!(dict.get("cat").unwrap().len(), 2);
    let def = dict.get_def("cat").unwrap();
    assert_eq!(def.varname, "cat");
    assert_eq!(def.to_string(), "cat = c. at.");
    assert!(dict.get_def("cow").is_none());
}

#[test]
fn rewriting_keysymbols() {
    let dict = amphivern_dict();
    let view = DefView::get_entry(&dict, "amphivern").unwrap();
    let rebuilt =
        optionalize_keysymbols(&view, &vec![false, true, false, false, false, true]).unwrap();
    assert_eq!(
        rebuilt.to_string(),
        "amphivern = (amphi = amphi.(ae!1 m? f i)) (vern = vern.(v @@r? n))"
    );
    let additions = vec![vec![k("w", 0)], vec![], vec![], vec![k("y", 0), k("y", 2)]];
    let rebuilt = add_diphthong_keysymbols(&view, &additions).unwrap();
    assert_eq!(
        rebuilt.to_string(),
        "amphivern = (amphi = amphi.(w ae!1 m f y y!2 i)) (vern = vern.(v @@r n))"
    );
    let replaced = view
        .rewrite_keysymbols(&vec![vec![], vec![k("a", 0), k("b", 0)], vec![], vec![], vec![], vec![], vec![]])
        .unwrap();
    assert_eq!(replaced.to_string(), "amphivern = (amphi = amphi.(a b)) (vern = vern.)");
    assert!(matches!(view.rewrite_keysymbols(&vec![vec![]]), Err(DefViewErr::UnexpectedNone)));
    let made = optionalized(&k("E5", 3));
    assert_eq!(made.to_string(), "E5!3?");
    assert_eq!(made.base_symbol(), "E");
    let mut cyclic = DefDict::new();
    cyclic.add("a".to_string(), vec![transclusion("a", 0)]);
    let view = DefView::get_entry(&cyclic, "a").unwrap();
    assert!(matches!(
        optionalize_keysymbols(&view, &vec![]),
        Err(DefViewErr::CircularDependency { .. })
    ));
}

#[test]
fn entities_tell_their_kind() {
    let entity = Entity::sopheme(Sopheme::new("c".to_string(), vec![k("k", 0)]));
    assert_eq!(entity.maybe_sopheme().unwrap().to_string(), "c.k");
    assert!(entity.maybe_transclusion().is_none());
    assert!(entity.maybe_raw_def().is_none());
    assert_eq!(entity.get_if_sopheme().unwrap().chars, "c");
    let entity = Entity::transclusion(Transclusion::new("cat".to_string(), 2));
    assert_eq!(entity.maybe_transclusion().unwrap().to_string(), "{cat}!2");
    assert!(entity.maybe_sopheme().is_none());
    assert!(entity.get_if_sopheme().is_none());
    let entity = Entity::RawDef(Def::empty("x".to_string()));
    assert_eq!(entity.maybe_raw_def().unwrap().varname, "x");
    assert_eq!(entity.to_string(), "(x = )");
    let dict = cat_dict();
    let view = DefView::get_entry(&dict, "cat").unwrap();
    let item = view.read(&[1]).unwrap().unwrap();
    assert_eq!(item.get_if_sopheme().unwrap().chars, "a");
    assert_eq!(item.n_children(), 1);
    assert!(view.read(&[1, 0]).unwrap().unwrap().get_if_sopheme().is_none());
}
