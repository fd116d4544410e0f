//! Toolkit-independent navigation of a cascading application menu.
//!
//! A menu is a tree of rows and an open path through it: one selection per
//! open level, the last level being the one the keyboard moves in. Every
//! level but the last is held open by an enabled branch selected in the level
//! above it, and every selection names an enabled row.

use vstd::prelude::*;

verus! {

/// One row of a menu.
pub struct Item<T> {
    pub label: String,
    pub checked: bool,
    pub enabled: bool,
    /// The quick digit the row promises; the renderer shows it as a keycap
    /// and the matching key activates the row while its level is open.
    pub number: Option<u8>,
    pub kind: Kind<T>,
}

/// What choosing a row does.
pub enum Kind<T> {
    Command(T),
    Branch(Vec<Item<T>>),
    Separator,
}

/// A row that is a separator: unlabelled, unchecked, unnumbered and never enabled.
pub open spec fn is_separator<T>(item: Item<T>) -> bool {
    &&& item.label@ == Seq::<char>::empty()
    &&& !item.checked
    &&& !item.enabled
    &&& item.number is None
    &&& item.kind is Separator
}

impl<T> Item<T> {
    pub fn command(label: &str, command: T) -> (item: Self)
        ensures
            item.label@ == label@,
            !item.checked,
            item.enabled,
            item.number is None,
            item.kind == Kind::Command(command),
    {
        Item {
            label: String::from_str(label),
            checked: false,
            enabled: true,
            number: None,
            kind: Kind::Command(command),
        }
    }

    /// A submenu; one with nothing in it cannot be opened.
    pub fn branch(label: &str, items: Vec<Self>) -> (item: Self)
        ensures
            item.label@ == label@,
            !item.checked,
            item.enabled == (items@.len() > 0),
            item.number is None,
            item.kind == Kind::Branch(items),
    {
        let enabled = items.len() > 0;
        Item {
            label: String::from_str(label),
            checked: false,
            enabled,
            number: None,
            kind: Kind::Branch(items),
        }
    }

    pub fn separator() -> (item: Self)
        ensures
            is_separator(item),
    {
        Item { label: String::new(), checked: false, enabled: false, number: None, kind: Kind::Separator }
    }

    pub fn checked(self, checked: bool) -> (item: Self)
        ensures
            item == (Item { checked, ..self }),
    {
        let mut item = self;
        item.checked = checked;
        item
    }

    pub fn numbered(self, number: u8) -> (item: Self)
        ensures
            item == (Item { number: Some(number), ..self }),
    {
        let mut item = self;
        item.number = Some(number);
        item
    }
}

/// The rows reached by following `path` down from `rows`: each step must name
/// a branch, and a step that does not leaves nothing.
pub open spec fn rows_along<T>(rows: Seq<Item<T>>, path: Seq<Option<usize>>) -> Seq<Item<T>>
    decreases path.len(),
{
    if path.len() == 0 {
        rows
    } else {
        match path[0] {
            Some(i) => if i < rows.len() {
                match rows[i as int].kind {
                    Kind::Branch(children) => rows_along(children@, path.drop_first()),
                    _ => Seq::empty(),
                }
            } else {
                Seq::empty()
            },
            None => Seq::empty(),
        }
    }
}

/// Whether `rows[i]` exists and can be chosen.
pub open spec fn row_enabled<T>(rows: Seq<Item<T>>, i: int) -> bool {
    0 <= i < rows.len() && rows[i].enabled
}

/// Whether `rows[i]` exists and is a submenu that can be opened.
pub open spec fn row_opens<T>(rows: Seq<Item<T>>, i: int) -> bool {
    row_enabled(rows, i) && rows[i].kind is Branch
}

/// The first enabled row at or after `from`.
pub open spec fn first_enabled_from<T>(rows: Seq<Item<T>>, from: int) -> Option<usize>
    decreases rows.len() - from,
{
    if from < 0 || from >= rows.len() {
        None
    } else if rows[from].enabled {
        Some(from as usize)
    } else {
        first_enabled_from(rows, from + 1)
    }
}

/// The last enabled row before `below`.
pub open spec fn last_enabled_below<T>(rows: Seq<Item<T>>, below: int) -> Option<usize>
    decreases below,
{
    if below <= 0 || below > rows.len() {
        None
    } else if rows[below - 1].enabled {
        Some((below - 1) as usize)
    } else {
        last_enabled_below(rows, below - 1)
    }
}

/// The row the keyboard moves to from `current`: the next enabled row in the
/// direction of travel, wrapping around the level; from no selection (or a
/// selection that is not an enabled row) the first or the last enabled row.
pub open spec fn step_target<T>(rows: Seq<Item<T>>, current: Option<usize>, forward: bool) -> Option<usize> {
    let on = current is Some && row_enabled(rows, current->0 as int);
    if forward {
        if on {
            match first_enabled_from(rows, current->0 + 1) {
                Some(j) => Some(j),
                None => first_enabled_from(rows, 0),
            }
        } else {
            first_enabled_from(rows, 0)
        }
    } else {
        if on {
            match last_enabled_below(rows, current->0 as int) {
                Some(j) => Some(j),
                None => last_enabled_below(rows, rows.len() as int),
            }
        } else {
            last_enabled_below(rows, rows.len() as int)
        }
    }
}

/// The indices of the enabled rows among the first `n` of `rows`, in
/// ascending order.
pub open spec fn enabled_rows<T>(rows: Seq<Item<T>>, n: int) -> Seq<int>
    decreases n,
{
    if n <= 0 {
        Seq::empty()
    } else if rows[n - 1].enabled {
        enabled_rows(rows, n - 1).push(n - 1)
    } else {
        enabled_rows(rows, n - 1)
    }
}

/// The first row of `rows` that a digit activates: an enabled command
/// carrying that number.
pub open spec fn numbered_row<T>(rows: Seq<Item<T>>, number: u8, i: int) -> bool {
    &&& 0 <= i < rows.len()
    &&& rows[i].number == Some(number)
    &&& rows[i].enabled
    &&& rows[i].kind is Command
}

/// `after` is `before` with the selection of its open level moved one
/// step: to `step_target` of that level, or nowhere when it has none.
pub open spec fn stepped<T>(before: Menu<T>, after: Menu<T>, forward: bool) -> bool {
    let level = before.path().len() - 1;
    &&& after.tree() == before.tree()
    &&& match step_target(before.rows_at(level), before.path()[level], forward) {
        Some(j) => after.path() == before.path().update(level, Some(j)),
        None => after.path() == before.path(),
    }
}

/// A cascading menu and the path currently open through it.
pub struct Menu<T> {
    items: Vec<Item<T>>,
    selected: Vec<Option<usize>>,
}

/// What the window has to do after a menu key or click.
#[derive(Debug, PartialEq)]
pub enum Effect<T> {
    Nothing,
    Activate(T),
    Dismiss,
}

impl<T> Menu<T> {
    /// The top-level rows.
    pub closed spec fn tree(self) -> Seq<Item<T>> {
        self.items@
    }

    /// One selection per open level, the top level first.
    pub closed spec fn path(self) -> Seq<Option<usize>> {
        self.selected@
    }

    /// The rows shown at `level`: those under the selections of the levels above it.
    pub open spec fn rows_at(self, level: int) -> Seq<Item<T>> {
        let path = self.path();
        rows_along(self.tree(), path.take(if level < path.len() { level } else { path.len() as int }))
    }

    /// The open path is sound: at least the top level is open, every level
    /// above the last is held open by an enabled branch, and every selection
    /// names an enabled row of its level.
    pub open spec fn wf(self) -> bool {
        &&& self.path().len() >= 1
        &&& forall|l: int|
            0 <= l < self.path().len() - 1 ==> #[trigger] self.path()[l] is Some && row_opens(
                self.rows_at(l),
                self.path()[l]->0 as int,
            )
        &&& forall|l: int|
            0 <= l < self.path().len() && #[trigger] self.path()[l] is Some ==> row_enabled(
                self.rows_at(l),
                self.path()[l]->0 as int,
            )
    }

    #[verifier::type_invariant]
    closed spec fn menu_invariant(self) -> bool {
        self.wf()
    }
}

/// Following a path one step further goes into the branch its last step selects.
proof fn lemma_rows_along_push<T>(rows: Seq<Item<T>>, path: Seq<Option<usize>>, i: usize)
    requires
        rows_along(rows, path).len() > i,
    ensures
        rows_along(rows, path.push(Some(i))) == (match rows_along(rows, path)[i as int].kind {
            Kind::Branch(children) => children@,
            _ => Seq::<Item<T>>::empty(),
        }),
    decreases path.len(),
{
    if path.len() == 0 {
        assert(path.push(Some(i)).drop_first() =~= Seq::<Option<usize>>::empty());
        assert(path.push(Some(i))[0] == Some(i));
        reveal_with_fuel(rows_along, 2);
    } else {
        assert(path.push(Some(i))[0] == path[0]);
        assert(path.push(Some(i)).drop_first() =~= path.drop_first().push(Some(i)));
        match path[0] {
            Some(j) => {
                if j < rows.len() {
                    match rows[j as int].kind {
                        Kind::Branch(children) => {
                            lemma_rows_along_push(children@, path.drop_first(), i);
                        },
                        _ => {},
                    }
                }
            },
            None => {},
        }
    }
}

impl<T: Clone> Menu<T> {
    pub fn new(items: Vec<Item<T>>) -> (menu: Self)
        ensures
            menu.tree() == items@,
            menu.path() == seq![Option::<usize>::None],
            menu.wf(),
    {
        let menu = Menu { items, selected: vec![None] };
        assert(menu.path().take(0) =~= Seq::<Option<usize>>::empty());
        menu
    }

    /// How many levels are open; the top level always is.
    pub fn depth(&self) -> (depth: usize)
        ensures
            depth == self.path().len(),
            depth >= 1,
    {
        proof {
            use_type_invariant(self);
        }
        self.selected.len()
    }

    pub fn selected(&self, level: usize) -> (selected: Option<usize>)
        ensures
            selected == (if level < self.path().len() {
                self.path()[level as int]
            } else {
                None
            }),
    {
        if level < self.selected.len() {
            self.selected[level]
        } else {
            None
        }
    }

    /// The rows shown at `level`, or none where nothing above opens it.
    pub fn items(&self, level: usize) -> (rows: &[Item<T>])
        ensures
            rows@ == self.rows_at(level as int),
    {
        let n = if level < self.selected.len() {
            level
        } else {
            self.selected.len()
        };
        let ghost path = self.path();
        let mut rows: &[Item<T>] = self.items.as_slice();
        let mut k: usize = 0;
        assert(path.take(n as int).subrange(0, n as int) =~= path.take(n as int));
        while k < n
            invariant
                k <= n <= path.len(),
                path == self.selected@,
                self.rows_at(level as int) == rows_along(rows@, path.subrange(k as int, n as int)),
            decreases n - k,
        {
            let rest = Ghost(path.subrange(k as int, n as int));
            assert(rest@.drop_first() =~= path.subrange(k + 1, n as int));
            assert(rest@[0] == path[k as int]);
            match self.selected[k] {
                Some(i) => {
                    if i < rows.len() {
                        match &rows[i].kind {
                            Kind::Branch(children) => {
                                rows = children.as_slice();
                            },
                            _ => {
                                return &rows[0..0];
                            },
                        }
                    } else {
                        return &rows[0..0];
                    }
                },
                None => {
                    return &rows[0..0];
                },
            }
            k = k + 1;
        }
        assert(path.subrange(n as int, n as int) =~= Seq::<Option<usize>>::empty());
        rows
    }
}



/// The first row of `rows`, at or after `from`, that the digit `number` activates.
pub open spec fn first_numbered<T>(rows: Seq<Item<T>>, number: u8, from: int) -> Option<usize>
    decreases rows.len() - from,
{
    if from < 0 || from >= rows.len() {
        None
    } else if numbered_row(rows, number, from) {
        Some(from as usize)
    } else {
        first_numbered(rows, number, from + 1)
    }
}

/// The rows a branch row opens onto.
pub open spec fn children<T>(item: Item<T>) -> Seq<Item<T>> {
    match item.kind {
        Kind::Branch(rows) => rows@,
        _ => Seq::empty(),
    }
}

/// Two menus over one tree whose paths agree on the first `keep` levels
/// show the same rows on those levels.
proof fn lemma_same_prefix<T>(old: Menu<T>, new: Menu<T>, keep: int)
    requires
        new.tree() == old.tree(),
        0 <= keep <= old.path().len(),
        keep <= new.path().len(),
        new.path().take(keep) == old.path().take(keep),
    ensures
        forall|l: int| 0 <= l <= keep ==> #[trigger] new.rows_at(l) == old.rows_at(l),
        forall|l: int| 0 <= l < keep ==> #[trigger] new.path()[l] == old.path()[l],
{
    assert forall|l: int| 0 <= l < keep implies #[trigger] new.path()[l] == old.path()[l] by {
        assert(new.path().take(keep)[l] == new.path()[l]);
        assert(old.path().take(keep)[l] == old.path()[l]);
    }
    assert forall|l: int| 0 <= l <= keep implies #[trigger] new.rows_at(l) == old.rows_at(l) by {
        assert(new.path().take(l) =~= old.path().take(l));
    }
}

/// The rows one level below an open branch are that branch's children.
proof fn lemma_rows_below<T>(menu: Menu<T>, level: int, i: usize)
    requires
        0 <= level < menu.path().len(),
        menu.path()[level] == Some(i),
        i < menu.rows_at(level).len(),
    ensures
        rows_along(menu.tree(), menu.path().take(level + 1)) == children(menu.rows_at(level)[i as int]),
{
    let path = menu.path();
    assert(path.take(level + 1) =~= path.take(level).push(Some(i)));
    lemma_rows_along_push(menu.tree(), path.take(level), i);
}


/// Every level of a menu is a vector's worth of rows.
proof fn lemma_rows_along_bounded<T>(rows: Seq<Item<T>>, path: Seq<Option<usize>>)
    requires
        rows.len() <= usize::MAX,
    ensures
        rows_along(rows, path).len() <= usize::MAX,
    decreases path.len(),
{
    if path.len() > 0 {
        match path[0] {
            Some(i) => {
                if i < rows.len() {
                    match rows[i as int].kind {
                        Kind::Branch(children) => {
                            assert(children@.len() == children.len());
                            lemma_rows_along_bounded(children@, path.drop_first());
                        },
                        _ => {},
                    }
                }
            },
            None => {},
        }
    }
}

proof fn lemma_rows_at_bounded<T>(menu: Menu<T>, level: int)
    ensures
        menu.rows_at(level).len() <= usize::MAX,
{
    assert(menu.items@.len() == menu.items.len());
    let path = menu.path();
    lemma_rows_along_bounded(menu.tree(), path.take(if level < path.len() { level } else { path.len() as int }));
}

/// The first `n` entries of `v`, as a new vector.
fn prefix(v: &Vec<Option<usize>>, n: usize) -> (r: Vec<Option<usize>>)
    requires
        n <= v@.len(),
    ensures
        r@ == v@.take(n as int),
{
    let mut r: Vec<Option<usize>> = Vec::new();
    let mut k: usize = 0;
    while k < n
        invariant
            k <= n <= v@.len(),
            r@ == v@.take(k as int),
        decreases n - k,
    {
        r.push(v[k]);
        k = k + 1;
        assert(r@ =~= v@.take(k as int));
    }
    r
}

fn find_enabled_from<T>(rows: &[Item<T>], from: usize) -> (r: Option<usize>)
    ensures
        r == first_enabled_from(rows@, from as int),
{
    let mut k = from;
    while k < rows.len()
        invariant
            from <= k,
            first_enabled_from(rows@, from as int) == first_enabled_from(rows@, k as int),
        decreases rows@.len() - k,
    {
        if rows[k].enabled {
            return Some(k);
        }
        k = k + 1;
    }
    None
}

fn find_enabled_below<T>(rows: &[Item<T>], below: usize) -> (r: Option<usize>)
    requires
        below <= rows@.len(),
    ensures
        r == last_enabled_below(rows@, below as int),
{
    let mut k = below;
    while k > 0
        invariant
            k <= below <= rows@.len(),
            last_enabled_below(rows@, below as int) == last_enabled_below(rows@, k as int),
        decreases k,
    {
        if rows[k - 1].enabled {
            return Some(k - 1);
        }
        k = k - 1;
    }
    None
}

fn find_step_target<T>(rows: &[Item<T>], current: Option<usize>, forward: bool) -> (r: Option<usize>)
    ensures
        r == step_target(rows@, current, forward),
{
    let on = match current {
        Some(c) => c < rows.len() && rows[c].enabled,
        None => false,
    };
    if forward {
        if on {
            let c = current.unwrap();
            match find_enabled_from(rows, c + 1) {
                Some(j) => Some(j),
                None => find_enabled_from(rows, 0),
            }
        } else {
            find_enabled_from(rows, 0)
        }
    } else {
        if on {
            let c = current.unwrap();
            match find_enabled_below(rows, c) {
                Some(j) => Some(j),
                None => find_enabled_below(rows, rows.len()),
            }
        } else {
            find_enabled_below(rows, rows.len())
        }
    }
}

fn find_numbered<T>(rows: &[Item<T>], number: u8) -> (r: Option<usize>)
    ensures
        r == first_numbered(rows@, number, 0),
{
    let mut k: usize = 0;
    while k < rows.len()
        invariant
            first_numbered(rows@, number, 0) == first_numbered(rows@, number, k as int),
        decreases rows@.len() - k,
    {
        let row = &rows[k];
        if row.number == Some(number) && row.enabled && matches!(row.kind, Kind::Command(_)) {
            return Some(k);
        }
        k = k + 1;
    }
    None
}

impl<T: Clone> Menu<T> {
    /// Select row `index` of an open level, closing every level below it. A
    /// row that does not exist or is disabled leaves the level with no selection.
    pub fn select(&mut self, level: usize, index: usize)
        ensures
            final(self).tree() == old(self).tree(),
            level >= old(self).path().len() ==> final(self).path() == old(self).path(),
            level < old(self).path().len() ==> final(self).path() == old(self).path().take(
                level + 1,
            ).update(
                level as int,
                if row_enabled(old(self).rows_at(level as int), index as int) {
                    Some(index)
                } else {
                    None
                },
            ),
            final(self).wf(),
    {
        proof {
            use_type_invariant(&*self);
        }
        if level >= self.depth() {
            return;
        }
        let ghost before = *self;
        let choice = {
            let rows = self.items(level);
            if index < rows.len() && rows[index].enabled {
                Some(index)
            } else {
                None
            }
        };
        let mut next = prefix(&self.selected, level + 1);
        next.set(level, choice);
        proof {
            let after = Menu { items: self.items, selected: next };
            assert(after.path().take(level as int) =~= before.path().take(level as int));
            lemma_same_prefix(before, after, level as int);
        }
        self.selected = next;
    }

    /// Open the branch selected at `level`, if that is what is selected there.
    fn expand(&mut self, level: usize) -> (opened: bool)
        ensures
            final(self).tree() == old(self).tree(),
            opened == (level < old(self).path().len() && old(self).path()[level as int] is Some
                && row_opens(old(self).rows_at(level as int), old(self).path()[level as int]->0 as int)),
            opened ==> final(self).path() == old(self).path().take(level + 1).push(None),
            !opened ==> final(self).path() == old(self).path(),
            final(self).wf(),
    {
        proof {
            use_type_invariant(&*self);
        }
        let sel = self.selected(level);
        let opens = match sel {
            Some(i) => {
                let rows = self.items(level);
                i < rows.len() && rows[i].enabled && matches!(rows[i].kind, Kind::Branch(_))
            },
            None => false,
        };
        if !opens {
            return false;
        }
        assert(sel is Some);
        assert(level < self.path().len());
        assert(self.selected@.len() == self.selected.len());
        let ghost before = *self;
        let mut next = prefix(&self.selected, level + 1);
        next.push(None);
        proof {
            let after = Menu { items: self.items, selected: next };
            assert(after.path().take(level + 1) =~= before.path().take(level + 1));
            lemma_same_prefix(before, after, level + 1);
        }
        self.selected = next;
        true
    }

    /// The pointer rests on row `index` of `level`: select it, and open it if
    /// it is a branch. Resting on the branch that is already open changes nothing.
    pub fn hover(&mut self, level: usize, index: usize)
        ensures
            final(self).tree() == old(self).tree(),
            ({
                let path = old(self).path();
                let rows = old(self).rows_at(level as int);
                if level >= path.len() || (path[level as int] == Some(index) && path.len() > level + 1) {
                    final(self).path() == path
                } else if row_opens(rows, index as int) {
                    final(self).path() == path.take(level + 1).update(level as int, Some(index)).push(None)
                } else if row_enabled(rows, index as int) {
                    final(self).path() == path.take(level + 1).update(level as int, Some(index))
                } else {
                    final(self).path() == path.take(level + 1).update(level as int, None)
                }
            }),
            final(self).wf(),
    {
        proof {
            use_type_invariant(&*self);
        }
        let held = match self.selected(level) {
            Some(i) => i == index && self.depth() > level + 1,
            None => false,
        };
        if held {
            return;
        }
        let ghost before = *self;
        self.select(level, index);
        proof {
            if level < before.path().len() {
                assert(self.path().take(level as int) =~= before.path().take(level as int));
                lemma_same_prefix(before, *self, level as int);
            }
        }
        self.expand(level);
        proof {
            if level < before.path().len() {
                let p = before.path().take(level + 1).update(level as int, Some(index));
                if row_enabled(before.rows_at(level as int), index as int) {
                    assert(p.take(level + 1) =~= p);
                } else {
                    let q = before.path().take(level + 1).update(level as int, None);
                    assert(q[level as int] is None);
                }
            }
        }
    }

    /// Move the selection of the open level to the next (or previous) enabled
    /// row, wrapping around; a level with no enabled row keeps its selection.
    pub fn step(&mut self, forward: bool)
        ensures
            stepped(*old(self), *final(self), forward),
            final(self).wf(),
    {
        proof {
            use_type_invariant(&*self);
        }
        let level = self.depth() - 1;
        let target = {
            let rows = self.items(level);
            find_step_target(rows, self.selected[level], forward)
        };
        let ghost before = *self;
        if let Some(j) = target {
            proof {
                let rows = before.rows_at(level as int);
                lemma_rows_at_bounded(before, level as int);
                let cur = before.path()[level as int];
                if forward {
                    if cur is Some && row_enabled(rows, cur->0 as int) {
                        lemma_first_enabled(rows, cur->0 + 1);
                    }
                    lemma_first_enabled(rows, 0);
                } else {
                    if cur is Some && row_enabled(rows, cur->0 as int) {
                        lemma_last_enabled(rows, cur->0 as int);
                    }
                    lemma_last_enabled(rows, rows.len() as int);
                }
                assert(before.path().take(level + 1) =~= before.path());
            }
            self.select(level, j);
        }
    }

    /// Select the first (or, with `last`, the last) enabled row of the open level.
    pub fn edge(&mut self, last: bool)
        ensures
            final(self).tree() == old(self).tree(),
            ({
                let level = old(self).path().len() - 1;
                final(self).path() == old(self).path().update(
                    level,
                    step_target(old(self).rows_at(level), None, !last),
                )
            }),
            final(self).wf(),
    {
        proof {
            use_type_invariant(&*self);
        }
        let level = self.depth() - 1;
        let ghost before = *self;
        let mut next = prefix(&self.selected, level + 1);
        next.set(level, None);
        proof {
            let after = Menu { items: self.items, selected: next };
            assert(after.path().take(level as int) =~= before.path().take(level as int));
            lemma_same_prefix(before, after, level as int);
        }
        self.selected = next;
        let ghost middle = *self;
        proof {
            assert(before.path().take(level + 1) =~= before.path());
            lemma_same_prefix(before, middle, level as int);
            let rows = before.rows_at(level as int);
            lemma_rows_at_bounded(before, level as int);
            lemma_first_enabled(rows, 0);
            lemma_last_enabled(rows, rows.len() as int);
        }
        self.step(!last);
        proof {
            assert(middle.path().update(level as int, step_target(before.rows_at(level as int), None, !last)) =~= before.path().update(level as int, step_target(before.rows_at(level as int), None, !last)));
        }
    }

    /// Close the open level; with only the top level open, close the menu.
    pub fn back(&mut self) -> (effect: Effect<T>)
        ensures
            final(self).tree() == old(self).tree(),
            old(self).path().len() == 1 ==> effect is Dismiss && final(self).path() == old(self).path(),
            old(self).path().len() > 1 ==> effect is Nothing && final(self).path() == old(self).path().drop_last(),
            final(self).wf(),
    {
        proof {
            use_type_invariant(&*self);
        }
        let depth = self.depth();
        if depth == 1 {
            return Effect::Dismiss;
        }
        let ghost before = *self;
        let next = prefix(&self.selected, depth - 1);
        proof {
            let after = Menu { items: self.items, selected: next };
            assert(after.path().take(depth - 1) =~= before.path().take(depth - 1));
            lemma_same_prefix(before, after, depth - 1);
            assert(next@ =~= before.path().drop_last());
        }
        self.selected = next;
        Effect::Nothing
    }

    /// Enter, or space: open the selected branch and select its first enabled
    /// row, or -- when `execute` -- activate the selected command.
    pub fn enter(&mut self, execute: bool) -> (effect: Effect<T>)
        ensures
            final(self).tree() == old(self).tree(),
            ({
                let level = old(self).path().len() - 1;
                let rows = old(self).rows_at(level);
                let sel = old(self).path()[level];
                if sel is Some && row_opens(rows, sel->0 as int) {
                    &&& effect is Nothing
                    &&& final(self).path() == old(self).path().push(
                        step_target(children(rows[sel->0 as int]), None, true),
                    )
                } else {
                    &&& final(self).path() == old(self).path()
                    &&& if execute && sel is Some && sel->0 < rows.len() && rows[sel->0 as int].kind is Command {
                        effect matches Effect::Activate(c) && cloned(rows[sel->0 as int].kind->Command_0, c)
                    } else {
                        effect is Nothing
                    }
                }
            }),
            final(self).wf(),
    {
        proof {
            use_type_invariant(&*self);
        }
        let level = self.depth() - 1;
        let ghost before = *self;
        if self.expand(level) {
            proof {
                let i = before.path()[level as int]->0;
                assert(before.path().take(level + 1) =~= before.path());
                lemma_rows_below(before, level as int, i);
                let after = *self;
                assert(after.path().take(level + 1) =~= before.path());
                lemma_same_prefix(before, after, level + 1);
                assert(after.rows_at(level + 1) == rows_along(before.tree(), before.path()));
                let kids = children(before.rows_at(level as int)[i as int]);
                lemma_rows_at_bounded(after, level + 1);
                lemma_first_enabled(kids, 0);
            }
            self.step(true);
            return Effect::Nothing;
        }
        let rows = self.items(level);
        match self.selected[level] {
            Some(i) => {
                if i < rows.len() && execute {
                    match &rows[i].kind {
                        Kind::Command(command) => Effect::Activate(command.clone()),
                        _ => Effect::Nothing,
                    }
                } else {
                    Effect::Nothing
                }
            },
            None => Effect::Nothing,
        }
    }

    /// Activate the open level's row carrying `number`, the way the keycap
    /// on that row promises. Only enabled commands qualify: a missing,
    /// disabled, unnumbered or non-command digit does nothing and leaves
    /// the selection alone.
    pub fn activate_numbered(&mut self, number: u8, execute: bool) -> (effect: Effect<T>)
        ensures
            final(self).tree() == old(self).tree(),
            ({
                let level = old(self).path().len() - 1;
                let rows = old(self).rows_at(level);
                match first_numbered(rows, number, 0) {
                    Some(i) => {
                        &&& final(self).path() == old(self).path().update(level, Some(i))
                        &&& if execute {
                            effect matches Effect::Activate(c) && cloned(rows[i as int].kind->Command_0, c)
                        } else {
                            effect is Nothing
                        }
                    },
                    None => final(self).path() == old(self).path() && effect is Nothing,
                }
            }),
            final(self).wf(),
    {
        proof {
            use_type_invariant(&*self);
        }
        let level = self.depth() - 1;
        let found = {
            let rows = self.items(level);
            find_numbered(rows, number)
        };
        let index = match found {
            Some(index) => index,
            None => return Effect::Nothing,
        };
        let ghost before = *self;
        proof {
            lemma_rows_at_bounded(before, level as int);
            lemma_first_numbered(before.rows_at(level as int), number, 0);
        }
        self.select(level, index);
        proof {
            assert(before.path().take(level + 1) =~= before.path());
            assert(self.path().take(level as int) =~= before.path().take(level as int));
            lemma_same_prefix(before, *self, level as int);
        }
        let chosen = match self.selected(level) {
            Some(i) => i == index,
            None => false,
        };
        if chosen {
            self.enter(execute)
        } else {
            Effect::Nothing
        }
    }
}

proof fn lemma_first_enabled<T>(rows: Seq<Item<T>>, from: int)
    requires
        rows.len() <= usize::MAX,
    ensures
        first_enabled_from(rows, from) matches Some(j) ==> from <= j && row_enabled(rows, j as int)
            && forall|i: int| from <= i < j ==> !(#[trigger] rows[i]).enabled,
        first_enabled_from(rows, from) is None && 0 <= from ==> forall|i: int|
            from <= i < rows.len() ==> !(#[trigger] rows[i]).enabled,
    decreases rows.len() - from,
{
    if 0 <= from < rows.len() && !rows[from].enabled {
        lemma_first_enabled(rows, from + 1);
    }
}

proof fn lemma_last_enabled<T>(rows: Seq<Item<T>>, below: int)
    requires
        rows.len() <= usize::MAX,
    ensures
        last_enabled_below(rows, below) matches Some(j) ==> j < below && row_enabled(rows, j as int)
            && forall|i: int| j < i < below ==> !(#[trigger] rows[i]).enabled,
        last_enabled_below(rows, below) is None && below <= rows.len() ==> forall|i: int|
            0 <= i < below ==> !(#[trigger] rows[i]).enabled,
    decreases below,
{
    if 0 < below <= rows.len() && !rows[below - 1].enabled {
        lemma_last_enabled(rows, below - 1);
    }
}

/// A step moves through the enabled rows of a level in order and wraps
/// around. With `e` the indices of the enabled rows in ascending order: a
/// level without enabled rows has no step target; from `e[k]` a step
/// forward lands on `e[(k + 1) % |e|]` and a step back on
/// `e[(k + |e| - 1) % |e|]`; from no selection, or one that is not an
/// enabled row, a step forward lands on the first of `e` and a step back
/// on the last.
pub proof fn lemma_step_cycles<T>(rows: Seq<Item<T>>, current: Option<usize>, forward: bool)
    requires
        rows.len() <= usize::MAX,
    ensures
        ({
            let e = enabled_rows(rows, rows.len() as int);
            let n = e.len() as int;
            &&& n == 0 ==> step_target(rows, current, forward) is None
            &&& n > 0 && !(current is Some && row_enabled(rows, current->0 as int)) ==> step_target(
                rows,
                current,
                forward,
            ) == Some((if forward { e[0] } else { e[n - 1] }) as usize)
            &&& forall|k: int|
                0 <= k < n && current == Some(#[trigger] e[k] as usize) ==> step_target(rows, current, forward)
                    == Some((if forward { e[(k + 1) % n] } else { e[(k + n - 1) % n] }) as usize)
        }),
{
    let e = enabled_rows(rows, rows.len() as int);
    let n = e.len() as int;
    let len = rows.len() as int;
    lemma_enabled_rows(rows, len);
    if n == 0 {
        lemma_first_enabled_none(rows, 0);
        lemma_last_enabled_none(rows, len);
        if let Some(c) = current {
            if row_enabled(rows, c as int) {
                assert(rows[c as int].enabled);
            }
        }
    } else {
        lemma_first_enabled_is(rows, 0, 0);
        lemma_last_enabled_is(rows, len, n - 1);
        assert forall|k: int|
            0 <= k < n && current == Some(#[trigger] e[k] as usize) implies step_target(rows, current, forward)
                == Some((if forward { e[(k + 1) % n] } else { e[(k + n - 1) % n] }) as usize) by {
            let c = e[k];
            assert(row_enabled(rows, c));
            if forward {
                if k + 1 < n {
                    lemma_first_enabled_is(rows, c + 1, k + 1);
                    lemma_wrap(k + 1, n);
                } else {
                    lemma_first_enabled_none(rows, c + 1);
                    lemma_wrap(k + 1, n);
                }
            } else {
                if k > 0 {
                    if k + 1 < n {
                        assert(e[k] < e[k + 1]);
                    }
                    lemma_last_enabled_is(rows, c, k - 1);
                    lemma_wrap(k + n - 1, n);
                } else {
                    lemma_last_enabled_none(rows, c);
                    lemma_wrap(k + n - 1, n);
                }
            }
        }
    }
}

/// A step forward and then a step back, or the other way round, bring the
/// selection of the open level back to the enabled row it was on, and
/// leave the menu as it was.
pub proof fn lemma_step_there_and_back<T>(before: Menu<T>, middle: Menu<T>, after: Menu<T>, forward: bool)
    requires
        before.wf(),
        before.path()[before.path().len() - 1] is Some,
        stepped(before, middle, forward),
        stepped(middle, after, !forward),
    ensures
        after.tree() == before.tree(),
        after.path() == before.path(),
{
    let level = before.path().len() - 1;
    let rows = before.rows_at(level);
    let c = before.path()[level]->0;
    assert(row_enabled(rows, c as int));
    lemma_rows_at_bounded(before, level);
    lemma_step_cycles(rows, Some(c), forward);
    let e = enabled_rows(rows, rows.len() as int);
    let n = e.len() as int;
    lemma_enabled_rows(rows, rows.len() as int);
    let k = choose|k: int| 0 <= k < n && #[trigger] e[k] == c as int;
    assert(Some(c) == Some(e[k] as usize));
    let k2 = if forward { (k + 1) % n } else { (k + n - 1) % n };
    let j = e[k2] as usize;
    assert(step_target(rows, Some(c), forward) == Some(j));
    assert(middle.path() == before.path().update(level, Some(j)));
    assert(middle.path().take(level) =~= before.path().take(level));
    lemma_same_prefix(before, middle, level);
    assert(middle.rows_at(level) == rows);
    lemma_step_cycles(rows, Some(j), !forward);
    assert(Some(j) == Some(e[k2] as usize));
    if forward {
        lemma_wrap(k + 1, n);
        lemma_wrap(k2 + n - 1, n);
    } else {
        lemma_wrap(k + n - 1, n);
        lemma_wrap(k2 + 1, n);
    }
    assert(after.path() =~= before.path());
}

/// Below twice `n`, taking the remainder by `n` subtracts `n` at most once.
proof fn lemma_wrap(x: int, n: int)
    requires
        0 <= x < 2 * n,
    ensures
        x % n == if x < n { x } else { x - n },
{
    if x < n {
        vstd::arithmetic::div_mod::lemma_small_mod(x as nat, n as nat);
    } else {
        vstd::arithmetic::div_mod::lemma_small_mod((x - n) as nat, n as nat);
        vstd::arithmetic::div_mod::lemma_mod_add_multiples_vanish(x - n, n);
    }
}

/// The enabled rows below `n` are listed once each, in ascending order.
proof fn lemma_enabled_rows<T>(rows: Seq<Item<T>>, n: int)
    requires
        0 <= n <= rows.len(),
    ensures
        forall|k: int|
            0 <= k < enabled_rows(rows, n).len() ==> 0 <= #[trigger] enabled_rows(rows, n)[k] < n
                && rows[enabled_rows(rows, n)[k]].enabled,
        forall|k: int, m: int|
            0 <= k < m < enabled_rows(rows, n).len() ==> #[trigger] enabled_rows(rows, n)[k]
                < #[trigger] enabled_rows(rows, n)[m],
        forall|i: int|
            0 <= i < n && (#[trigger] rows[i]).enabled ==> exists|m: int|
                0 <= m < enabled_rows(rows, n).len() && #[trigger] enabled_rows(rows, n)[m] == i,
    decreases n,
{
    if n > 0 {
        lemma_enabled_rows(rows, n - 1);
        let b = enabled_rows(rows, n - 1);
        let e = enabled_rows(rows, n);
        if rows[n - 1].enabled {
            assert(e == b.push(n - 1));
            assert forall|i: int| 0 <= i < n && (#[trigger] rows[i]).enabled implies exists|m: int|
                0 <= m < e.len() && #[trigger] e[m] == i by {
                if i == n - 1 {
                    assert(e[b.len() as int] == i);
                } else {
                    let m = choose|m: int| 0 <= m < b.len() && #[trigger] b[m] == i;
                    assert(e[m] == i);
                }
            }
        }
    }
}

/// The first enabled row at or after `from` is the first of `enabled_rows`
/// that is not below `from`.
proof fn lemma_first_enabled_is<T>(rows: Seq<Item<T>>, from: int, k: int)
    requires
        rows.len() <= usize::MAX,
        0 <= from <= rows.len(),
        0 <= k < enabled_rows(rows, rows.len() as int).len(),
        enabled_rows(rows, rows.len() as int)[k] >= from,
        k == 0 || enabled_rows(rows, rows.len() as int)[k - 1] < from,
    ensures
        first_enabled_from(rows, from) == Some(enabled_rows(rows, rows.len() as int)[k] as usize),
{
    let e = enabled_rows(rows, rows.len() as int);
    lemma_enabled_rows(rows, rows.len() as int);
    lemma_first_enabled(rows, from);
    assert(rows[e[k]].enabled);
    if let Some(j) = first_enabled_from(rows, from) {
        assert(rows[j as int].enabled);
        let m = choose|m: int| 0 <= m < e.len() && #[trigger] e[m] == j as int;
        if m < k {
            if m < k - 1 {
                assert(e[m] < e[k - 1]);
            }
        } else if m > k {
            assert(e[k] < e[m]);
            assert(!rows[e[k]].enabled);
        }
    }
}

/// No row at or after `from` is enabled once every enabled row is below it.
proof fn lemma_first_enabled_none<T>(rows: Seq<Item<T>>, from: int)
    requires
        rows.len() <= usize::MAX,
        0 <= from,
        ({
            let e = enabled_rows(rows, rows.len() as int);
            e.len() == 0 || e[e.len() - 1] < from
        }),
    ensures
        first_enabled_from(rows, from) is None,
{
    let e = enabled_rows(rows, rows.len() as int);
    lemma_enabled_rows(rows, rows.len() as int);
    lemma_first_enabled(rows, from);
    if let Some(j) = first_enabled_from(rows, from) {
        assert(rows[j as int].enabled);
        let m = choose|m: int| 0 <= m < e.len() && #[trigger] e[m] == j as int;
        if m < e.len() - 1 {
            assert(e[m] < e[e.len() - 1]);
        }
    }
}

/// The last enabled row below `below` is the last of `enabled_rows` that is
/// below it.
proof fn lemma_last_enabled_is<T>(rows: Seq<Item<T>>, below: int, k: int)
    requires
        rows.len() <= usize::MAX,
        0 <= below <= rows.len(),
        0 <= k < enabled_rows(rows, rows.len() as int).len(),
        enabled_rows(rows, rows.len() as int)[k] < below,
        k == enabled_rows(rows, rows.len() as int).len() - 1 || enabled_rows(rows, rows.len() as int)[k
            + 1] >= below,
    ensures
        last_enabled_below(rows, below) == Some(enabled_rows(rows, rows.len() as int)[k] as usize),
{
    let e = enabled_rows(rows, rows.len() as int);
    lemma_enabled_rows(rows, rows.len() as int);
    lemma_last_enabled(rows, below);
    assert(rows[e[k]].enabled);
    if let Some(j) = last_enabled_below(rows, below) {
        assert(rows[j as int].enabled);
        let m = choose|m: int| 0 <= m < e.len() && #[trigger] e[m] == j as int;
        if m > k {
            if m > k + 1 {
                assert(e[k + 1] < e[m]);
            }
        } else if m < k {
            assert(e[m] < e[k]);
            assert(!rows[e[k]].enabled);
        }
    }
}

/// No row below `below` is enabled once every enabled row is at or above it.
proof fn lemma_last_enabled_none<T>(rows: Seq<Item<T>>, below: int)
    requires
        rows.len() <= usize::MAX,
        below <= rows.len(),
        ({
            let e = enabled_rows(rows, rows.len() as int);
            e.len() == 0 || e[0] >= below
        }),
    ensures
        last_enabled_below(rows, below) is None,
{
    let e = enabled_rows(rows, rows.len() as int);
    lemma_enabled_rows(rows, rows.len() as int);
    lemma_last_enabled(rows, below);
    if let Some(j) = last_enabled_below(rows, below) {
        assert(rows[j as int].enabled);
        let m = choose|m: int| 0 <= m < e.len() && #[trigger] e[m] == j as int;
        if m > 0 {
            assert(e[0] < e[m]);
        }
    }
}

proof fn lemma_first_numbered<T>(rows: Seq<Item<T>>, number: u8, from: int)
    requires
        rows.len() <= usize::MAX,
    ensures
        first_numbered(rows, number, from) matches Some(j) ==> from <= j && numbered_row(rows, number, j as int),
    decreases rows.len() - from,
{
    if 0 <= from < rows.len() && !numbered_row(rows, number, from) {
        lemma_first_numbered(rows, number, from + 1);
    }
}

/// The rows of the File menu: Open, the recent files between two separators
/// when there are any, and Settings.
pub fn file_items<T>(open: Item<T>, recent: Vec<Item<T>>, settings: Item<T>) -> (items: Vec<Item<T>>)
    ensures
        recent@.len() == 0 ==> items@.len() == 3 && items@[0] == open && is_separator(items@[1])
            && items@[2] == settings,
        recent@.len() > 0 ==> {
            &&& items@.len() == recent@.len() + 4
            &&& items@[0] == open
            &&& is_separator(items@[1])
            &&& items@.subrange(2, recent@.len() + 2int) == recent@
            &&& is_separator(items@[recent@.len() + 2int])
            &&& items@[recent@.len() + 3int] == settings
        },
{
    let mut items = Vec::new();
    items.push(open);
    items.push(Item::separator());
    if recent.len() > 0 {
        let mut recent = recent;
        items.append(&mut recent);
        items.push(Item::separator());
    }
    items.push(settings);
    items
}
} // verus!
