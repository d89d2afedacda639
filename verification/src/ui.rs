use vstd::prelude::*;
use crate::signals::{ReadSignal, SignalId};
use crate::style::StyleValue;
use crate::propmap::PropMap;
use crate::text::{opt_str, split_whitespace, texts, words};

verus! {

broadcast use vstd::string::group_string_axioms;

/// An element under construction: its content, bindings, handlers, classes,
/// inline styles and children.  `H` is the type of mouse handlers and `M`
/// that of input handlers.
pub struct Element<H, M> {
    pub text_content: Option<String>,
    pub image_id: Option<String>,
    pub flags: u32,
    pub value_signal: Option<ReadSignal<String>>,
    pub path_signal: Option<ReadSignal<String>>,
    pub flags_signal: Option<ReadSignal<u32>>,
    pub on_click: Option<H>,
    pub on_mouse_enter: Option<H>,
    pub on_mouse_leave: Option<H>,
    pub classes: Vec<String>,
    pub inline_styles: PropMap<StyleValue>,
    pub children: Vec<Element<H, M>>,
    pub path_data: Option<String>,
    pub input_type: Option<String>,
    pub on_update_model_value: Option<M>,
}

/// What an element under construction holds.
pub struct ElementState<H, M> {
    pub text: Option<Seq<char>>,
    pub image: Option<Seq<char>>,
    pub flags: u32,
    pub value_signal: Option<SignalId>,
    pub path_signal: Option<SignalId>,
    pub flags_signal: Option<SignalId>,
    pub on_click: Option<H>,
    pub on_mouse_enter: Option<H>,
    pub on_mouse_leave: Option<H>,
    pub classes: Seq<Seq<char>>,
    pub styles: Map<Seq<char>, StyleValue>,
    pub children: Seq<Element<H, M>>,
    pub path: Option<Seq<char>>,
    pub input_type: Option<Seq<char>>,
    pub on_update_model_value: Option<M>,
}

pub open spec fn signal_id<T>(s: Option<ReadSignal<T>>) -> Option<SignalId> {
    match s {
        Some(r) => Some(r.id),
        None => None,
    }
}


/// `v` is the identifier `s`.
pub open spec fn is_ident(v: StyleValue, s: Seq<char>) -> bool {
    v matches StyleValue::Ident(x) && x@ == s
}

/// The flag a fresh element starts with: visible.
pub const FLAG_VISIBLE: u32 = 1;

/// A fresh element: visible, with nothing set.
pub open spec fn fresh_state<H, M>() -> ElementState<H, M> {
    ElementState {
        text: None,
        image: None,
        flags: FLAG_VISIBLE,
        value_signal: None,
        path_signal: None,
        flags_signal: None,
        on_click: None,
        on_mouse_enter: None,
        on_mouse_leave: None,
        classes: Seq::empty(),
        styles: Map::empty(),
        children: Seq::empty(),
        path: None,
        input_type: None,
        on_update_model_value: None,
    }
}

impl<H, M> Element<H, M> {
    pub open spec fn view(&self) -> ElementState<H, M> {
        ElementState {
            text: opt_str(self.text_content),
            image: opt_str(self.image_id),
            flags: self.flags,
            value_signal: signal_id(self.value_signal),
            path_signal: signal_id(self.path_signal),
            flags_signal: signal_id(self.flags_signal),
            on_click: self.on_click,
            on_mouse_enter: self.on_mouse_enter,
            on_mouse_leave: self.on_mouse_leave,
            classes: texts(self.classes@),
            styles: self.inline_styles.view(),
            children: self.children@,
            path: opt_str(self.path_data),
            input_type: opt_str(self.input_type),
            on_update_model_value: self.on_update_model_value,
        }
    }

    /// An empty, visible element.
    pub fn new() -> (e: Self)
        ensures
            e@ == fresh_state::<H, M>(),
    {
        let e = Element {
            text_content: None,
            image_id: None,
            flags: FLAG_VISIBLE,
            value_signal: None,
            path_signal: None,
            flags_signal: None,
            on_click: None,
            on_mouse_enter: None,
            on_mouse_leave: None,
            classes: Vec::new(),
            inline_styles: PropMap::new(),
            children: Vec::new(),
            path_data: None,
            input_type: None,
            on_update_model_value: None,
        };
        assert(texts(e.classes@) =~= Seq::<Seq<char>>::empty());
        e
    }

    /// Adds each white-space separated class name in `name`.
    pub fn class(self, name: &str) -> (e: Self)
        ensures
            e@ == (ElementState { classes: self@.classes + words(name@), ..self@ }),
    {
        let mut el = self;
        let tokens = split_whitespace(name);
        let mut classes: Vec<String> = Vec::new();
        std::mem::swap(&mut classes, &mut el.classes);
        let ghost c0 = texts(classes@);
        let mut i: usize = 0;
        while i < tokens.len()
            invariant
                i <= tokens@.len(),
                tokens@.len() == words(name@).len(),
                forall|j: int| 0 <= j < tokens@.len() ==> #[trigger] tokens@[j]@ == words(name@)[j],
                texts(classes@) == c0 + words(name@).take(i as int),
            decreases tokens.len() - i,
        {
            let ghost before = classes@;
            classes.push(tokens[i].clone());
            proof {
                assert(tokens@[i as int]@ == words(name@)[i as int]);
                assert(classes@ == before.push(tokens@[i as int]));
                assert(texts(before) == c0 + words(name@).take(i as int));
                assert(texts(before).len() == before.len());
                assert(before.len() == c0.len() + i);
                assert(classes@.len() == c0.len() + i + 1);
                assert(words(name@).take(i + 1).len() == i + 1);
                assert forall|k: int| 0 <= k < classes@.len() implies #[trigger] texts(classes@)[k]
                    == (c0 + words(name@).take(i + 1))[k] by {
                    if k < before.len() {
                        assert(texts(before)[k] == before[k]@);
                    }
                }
                assert(texts(classes@) =~= c0 + words(name@).take(i + 1));
            }
            i = i + 1;
        }
        proof {
            assert(words(name@).take(tokens@.len() as int) =~= words(name@));
        }
        el.classes = classes;
        el
    }

    /// Sets an inline style property.
    pub fn style(self, prop: &str, val: StyleValue) -> (e: Self)
        ensures
            e@ == (ElementState { styles: self@.styles.insert(prop@, val), ..self@ }),
    {
        let mut el = self;
        el.inline_styles.insert(prop.to_string(), val);
        el
    }

    /// Lays the children out in a row.
    pub fn row(self) -> (e: Self)
        ensures
            e@ == (ElementState { styles: e@.styles, ..self@ }),
            e@.styles.remove("flex-direction"@) == self@.styles.remove("flex-direction"@),
            e@.styles.contains_key("flex-direction"@),
            is_ident(e@.styles["flex-direction"@], "row"@),
    {
        let v = "row".to_string();
        let e = self.style("flex-direction", StyleValue::Ident(v));
        proof {
            assert(e@.styles.remove("flex-direction"@) =~= self@.styles.remove("flex-direction"@));
        }
        e
    }

    /// Lays the children out in a column.
    pub fn col(self) -> (e: Self)
        ensures
            e@ == (ElementState { styles: e@.styles, ..self@ }),
            e@.styles.remove("flex-direction"@) == self@.styles.remove("flex-direction"@),
            e@.styles.contains_key("flex-direction"@),
            is_ident(e@.styles["flex-direction"@], "column"@),
    {
        let v = "column".to_string();
        let e = self.style("flex-direction", StyleValue::Ident(v));
        proof {
            assert(e@.styles.remove("flex-direction"@) =~= self@.styles.remove("flex-direction"@));
        }
        e
    }

    /// Appends a child.
    pub fn child(self, child: Element<H, M>) -> (e: Self)
        ensures
            e@ == (ElementState { children: self@.children.push(child), ..self@ }),
    {
        let mut el = self;
        el.children.push(child);
        el
    }

    /// Sets the click handler.
    pub fn on_click(self, f: H) -> (e: Self)
        ensures
            e@ == (ElementState { on_click: Some(f), ..self@ }),
    {
        let mut el = self;
        el.on_click = Some(f);
        el
    }

    /// Sets the handler for the pointer entering the element.
    pub fn on_mouse_enter(self, f: H) -> (e: Self)
        ensures
            e@ == (ElementState { on_mouse_enter: Some(f), ..self@ }),
    {
        let mut el = self;
        el.on_mouse_enter = Some(f);
        el
    }

    /// Sets the handler for the pointer leaving the element.
    pub fn on_mouse_leave(self, f: H) -> (e: Self)
        ensures
            e@ == (ElementState { on_mouse_leave: Some(f), ..self@ }),
    {
        let mut el = self;
        el.on_mouse_leave = Some(f);
        el
    }

    /// Binds the element's text to a signal.
    pub fn value(self, signal: ReadSignal<String>) -> (e: Self)
        ensures
            e@ == (ElementState { value_signal: Some(signal.id), ..self@ }),
    {
        let mut el = self;
        el.value_signal = Some(signal);
        el
    }

    /// Binds the element's text to a signal (the same as `value`).
    pub fn bind_text(self, signal: ReadSignal<String>) -> (e: Self)
        ensures
            e@ == (ElementState { value_signal: Some(signal.id), ..self@ }),
    {
        self.value(signal)
    }

    /// Binds the element's path data to a signal.
    pub fn bind_path(self, signal: ReadSignal<String>) -> (e: Self)
        ensures
            e@ == (ElementState { path_signal: Some(signal.id), ..self@ }),
    {
        let mut el = self;
        el.path_signal = Some(signal);
        el
    }

    /// Binds the element's flags to a signal.
    pub fn bind_flags(self, signal: ReadSignal<u32>) -> (e: Self)
        ensures
            e@ == (ElementState { flags_signal: Some(signal.id), ..self@ }),
    {
        let mut el = self;
        el.flags_signal = Some(signal);
        el
    }

    /// Sets the element's text.
    pub fn text(self, s: &str) -> (e: Self)
        ensures
            e@ == (ElementState { text: Some(s@), ..self@ }),
    {
        let mut el = self;
        el.text_content = Some(s.to_string());
        el
    }

    /// Sets the image the element shows.
    pub fn image(self, id: &str) -> (e: Self)
        ensures
            e@ == (ElementState { image: Some(id@), ..self@ }),
    {
        let mut el = self;
        el.image_id = Some(id.to_string());
        el
    }

    /// Sets the element's vector path data.
    pub fn path(self, d: &str) -> (e: Self)
        ensures
            e@ == (ElementState { path: Some(d@), ..self@ }),
    {
        let mut el = self;
        el.path_data = Some(d.to_string());
        el
    }

    /// Makes the element an input of the given type.
    pub fn input_type(self, t: &str) -> (e: Self)
        ensures
            e@ == (ElementState { input_type: Some(t@), ..self@ }),
    {
        let mut el = self;
        el.input_type = Some(t.to_string());
        el
    }

    /// Sets the handler called with an input's new value.
    pub fn on_update_model_value(self, f: M) -> (e: Self)
        ensures
            e@ == (ElementState { on_update_model_value: Some(f), ..self@ }),
    {
        let mut el = self;
        el.on_update_model_value = Some(f);
        el
    }
}

/// An empty element.
pub fn div<H, M>() -> (e: Element<H, M>)
    ensures
        e@ == fresh_state::<H, M>(),
{
    Element::new()
}

/// An element showing `content`.
pub fn text<H, M>(content: &str) -> (e: Element<H, M>)
    ensures
        e@ == (ElementState { text: Some(content@), ..fresh_state::<H, M>() }),
{
    Element::new().text(content)
}

/// An empty element, to be made an input.
pub fn input<H, M>() -> (e: Element<H, M>)
    ensures
        e@ == fresh_state::<H, M>(),
{
    Element::new()
}

/// An empty element, to be given an image.
pub fn img<H, M>() -> (e: Element<H, M>)
    ensures
        e@ == fresh_state::<H, M>(),
{
    Element::new()
}

// ---------------------------------------------------------------------------
// Keyed lists and conditional blocks


/// For each new item key in order, the node already mounted for it, if any
/// (to be moved into place), or none (a node is to be built).
pub open spec fn reuse_plan(mounted: Map<Seq<char>, u32>, keys: Seq<Seq<char>>) -> Seq<Option<u32>> {
    Seq::new(keys.len(), |i: int| if mounted.contains_key(keys[i]) { Some(mounted[keys[i]]) } else { None })
}

/// The mounted nodes whose keys are no longer among `keys`, in mounting order.
pub open spec fn dropped(pairs: Seq<(String, u32)>, keys: Seq<Seq<char>>) -> Seq<u32>
    decreases pairs.len(),
{
    if pairs.len() == 0 {
        seq![]
    } else {
        let rest = dropped(pairs.drop_last(), keys);
        if keys.contains(pairs.last().0@) {
            rest
        } else {
            rest.push(pairs.last().1)
        }
    }
}

/// Whether `key` is among `keys`.
fn has_key(keys: &Vec<String>, key: &str) -> (b: bool)
    ensures
        b == texts(keys@).contains(key@),
{
    let mut i: usize = 0;
    while i < keys.len()
        invariant
            i <= keys@.len(),
            forall|k: int| 0 <= k < i ==> keys@[k]@ != key@,
        decreases keys.len() - i,
    {
        if crate::text::str_eq(keys[i].as_str(), key) {
            proof {
                assert(texts(keys@)[i as int] == key@);
            }
            return true;
        }
        i = i + 1;
    }
    proof {
        if texts(keys@).contains(key@) {
            let k = texts(keys@).index_of(key@);
            assert(keys@[k]@ == key@);
        }
    }
    false
}

/// Reconciles a keyed list with new item keys: for each new key, the node to
/// reuse (or none, to build one), and the mounted nodes to delete.
pub fn reconcile_list(mounted: &PropMap<u32>, keys: &Vec<String>) -> (r: (Vec<Option<u32>>, Vec<u32>))
    ensures
        r.0@ == reuse_plan(mounted.view(), texts(keys@)),
        r.1@ == dropped(mounted.pairs(), texts(keys@)),
{
    let mut plan: Vec<Option<u32>> = Vec::new();
    let mut i: usize = 0;
    while i < keys.len()
        invariant
            i <= keys@.len(),
            plan@ == reuse_plan(mounted.view(), texts(keys@)).take(i as int),
        decreases keys.len() - i,
    {
        let step = match mounted.get(keys[i].as_str()) {
            Some(id) => Some(*id),
            None => None,
        };
        plan.push(step);
        proof {
            assert(plan@ =~= reuse_plan(mounted.view(), texts(keys@)).take(i + 1));
        }
        i = i + 1;
    }
    proof {
        assert(reuse_plan(mounted.view(), texts(keys@)).take(keys@.len() as int) =~= reuse_plan(mounted.view(), texts(keys@)));
    }
    let entries = mounted.entries();
    let mut gone: Vec<u32> = Vec::new();
    let mut j: usize = 0;
    while j < entries.len()
        invariant
            j <= entries@.len(),
            entries@ == mounted.pairs(),
            gone@ == dropped(entries@.take(j as int), texts(keys@)),
        decreases entries.len() - j,
    {
        proof {
            let t = entries@.take(j + 1);
            assert(t.drop_last() =~= entries@.take(j as int));
            assert(t.last() == entries@[j as int]);
        }
        if !has_key(keys, entries[j].0.as_str()) {
            gone.push(entries[j].1);
        }
        j = j + 1;
    }
    proof {
        assert(entries@.take(entries@.len() as int) =~= entries@);
    }
    (plan, gone)
}

/// What a conditional block does when its condition is read again.
pub enum IfStep {
    /// Build the content.
    Mount,
    /// Delete the mounted content.
    Unmount(u32),
    /// Leave things as they are.
    Keep,
}

/// What a conditional block with content `current` does when its condition
/// is `condition`: build content that is missing, delete content that is no
/// longer wanted, and otherwise nothing.
pub fn mount_if_step(current: Option<u32>, condition: bool) -> (r: IfStep)
    ensures
        condition && current is None ==> r is Mount,
        !condition && current is Some ==> r == IfStep::Unmount(current->0),
        (condition && current is Some) || (!condition && current is None) ==> r is Keep,
{
    match (condition, current) {
        (true, None) => IfStep::Mount,
        (false, Some(id)) => IfStep::Unmount(id),
        _ => IfStep::Keep,
    }
}

} // verus!
