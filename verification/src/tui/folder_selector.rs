//! The folder selector: a list of top-level folders with a box to tick for each.
use vstd::prelude::*;

use crate::crawler::listing::{entry_views, EntryView};
use crate::crawler::parser::DirEntry;
use crate::db::tables::{folder_views, folders_ok, FolderView, SelectedFolder};
use crate::downloader::plan::{as_unsigned, to_unsigned};
use crate::order::{lemma_picked, lemma_picked_from_both};
use crate::outside::byte_size;
use crate::outside::byte_size_text;
use crate::text::{decimal, push_decimal, same_text, texts};

verus! {

/// A folder of the list.
#[derive(Debug, Clone)]
pub struct FolderNode {
    /// Path relative to the server root, such as `Manga`.
    pub path: String,
    /// Depth below the top level.
    pub depth: usize,
    /// Whether the folder is selected.
    pub selected: bool,
    /// The size of all files under the folder, if known.
    pub size_bytes: Option<i64>,
}

/// The contents of a `FolderNode`.
#[verifier::ext_equal]
pub struct NodeView {
    pub path: Seq<char>,
    pub depth: usize,
    pub selected: bool,
    pub size_bytes: Option<i64>,
}

impl View for FolderNode {
    type V = NodeView;

    open spec fn view(&self) -> NodeView {
        NodeView {
            path: self.path@,
            depth: self.depth,
            selected: self.selected,
            size_bytes: self.size_bytes,
        }
    }
}

/// The contents of nodes.
pub open spec fn node_views(nodes: Seq<FolderNode>) -> Seq<NodeView> {
    nodes.map_values(|n: FolderNode| n@)
}

// ---------------------------------------------------------------------------
// The list
// ---------------------------------------------------------------------------

/// The list and the position of the cursor.
pub struct App {
    pub nodes: Vec<FolderNode>,
    pub cursor: Option<usize>,
}

/// The contents of an `App`.
#[verifier::ext_equal]
pub struct AppView {
    pub nodes: Seq<NodeView>,
    pub cursor: Option<usize>,
}

impl View for App {
    type V = AppView;

    open spec fn view(&self) -> AppView {
        AppView { nodes: node_views(self.nodes@), cursor: self.cursor }
    }
}

/// The cursor is on a node, if there is one.
pub open spec fn app_ok(app: AppView) -> bool {
    match app.cursor {
        Some(i) => i < app.nodes.len(),
        None => app.nodes.len() == 0,
    }
}

/// The cursor one node up; from the first it goes to the last.
pub open spec fn moved_up(app: AppView) -> AppView {
    match app.cursor {
        Some(i) => AppView {
            cursor: Some(
                if i == 0 {
                    (app.nodes.len() - 1) as usize
                } else {
                    (i - 1) as usize
                },
            ),
            ..app
        },
        None => app,
    }
}

/// The cursor one node down; from the last it goes to the first.
pub open spec fn moved_down(app: AppView) -> AppView {
    match app.cursor {
        Some(i) => AppView {
            cursor: Some(
                if i + 1 == app.nodes.len() {
                    0
                } else {
                    (i + 1) as usize
                },
            ),
            ..app
        },
        None => app,
    }
}

/// A node with its box ticked or cleared.
pub open spec fn ticked(node: NodeView, value: bool) -> NodeView {
    NodeView { selected: value, ..node }
}

/// The list with the box under the cursor changed.
pub open spec fn toggled(app: AppView) -> AppView {
    match app.cursor {
        Some(i) => AppView {
            nodes: app.nodes.update(
                i as int,
                ticked(app.nodes[i as int], !app.nodes[i as int].selected),
            ),
            ..app
        },
        None => app,
    }
}

/// The list with all boxes ticked or cleared.
pub open spec fn all_ticked(app: AppView, value: bool) -> AppView {
    AppView { nodes: app.nodes.map_values(|n: NodeView| ticked(n, value)), ..app }
}

/// The known sizes of selected nodes.
pub open spec fn selected_bytes(nodes: Seq<NodeView>) -> int
    decreases nodes.len(),
{
    if nodes.len() == 0 {
        0
    } else {
        selected_bytes(nodes.drop_last()) + (if nodes.last().selected {
            match nodes.last().size_bytes {
                Some(size) => size as int,
                None => 0,
            }
        } else {
            0
        })
    }
}

/// Whether the sizes can be added up one after the other.
pub open spec fn bytes_fit(nodes: Seq<NodeView>) -> bool {
    forall|i: int|
        0 <= i <= nodes.len() ==> i64::MIN <= selected_bytes(#[trigger] nodes.take(i)) <= i64::MAX
}

/// The number of selected nodes.
pub open spec fn count_selected(nodes: Seq<NodeView>) -> nat {
    nodes.filter(|n: NodeView| n.selected).len()
}

impl App {
    /// A list with the cursor on the first node.
    pub fn new(nodes: Vec<FolderNode>) -> (r: Self)
        ensures
            r.nodes == nodes,
            r.cursor == (if nodes@.len() > 0 {
                Some(0usize)
            } else {
                None
            }),
            app_ok(r@),
    {
        let cursor: Option<usize> = if nodes.len() > 0 {
            Some(0)
        } else {
            None
        };
        App { nodes, cursor }
    }

    /// The position of the cursor.
    pub fn selected_index(&self) -> (r: Option<usize>)
        ensures
            r == self@.cursor,
    {
        self.cursor
    }

    /// Moves the cursor up.
    pub fn move_up(&mut self)
        requires
            app_ok(old(self)@),
        ensures
            app_ok(final(self)@),
            final(self)@ == moved_up(old(self)@),
    {
        match self.cursor {
            Some(i) => {
                self.cursor = Some(
                    if i == 0 {
                        self.nodes.len() - 1
                    } else {
                        i - 1
                    },
                );
            },
            None => {},
        }
    }

    /// Moves the cursor down.
    pub fn move_down(&mut self)
        requires
            app_ok(old(self)@),
        ensures
            app_ok(final(self)@),
            final(self)@ == moved_down(old(self)@),
    {
        match self.cursor {
            Some(i) => {
                let n: usize = self.nodes.len();
                self.cursor = Some(
                    if i + 1 == n {
                        0
                    } else {
                        i + 1
                    },
                );
            },
            None => {},
        }
    }

    /// Changes the box under the cursor.
    pub fn toggle_selected(&mut self)
        requires
            app_ok(old(self)@),
        ensures
            app_ok(final(self)@),
            final(self)@ == toggled(old(self)@),
    {
        let ghost before: AppView = self@;
        match self.cursor {
            Some(i) => {
                let value: bool = !self.nodes[i].selected;
                self.nodes[i].selected = value;
                assert(self@.nodes =~= toggled(before).nodes);
            },
            None => {},
        }
    }

    /// Ticks or clears all boxes.
    pub fn select_all(&mut self, value: bool)
        requires
            app_ok(old(self)@),
        ensures
            app_ok(final(self)@),
            final(self)@ == all_ticked(old(self)@, value),
    {
        let ghost before: AppView = self@;
        let mut i: usize = 0;
        while i < self.nodes.len()
            invariant
                i <= self.nodes@.len(),
                self.nodes@.len() == before.nodes.len(),
                self.cursor == before.cursor,
                forall|k: int|
                    0 <= k < i ==> (#[trigger] self@.nodes[k]) == ticked(before.nodes[k], value),
                forall|k: int|
                    i <= k < before.nodes.len() ==> (#[trigger] self@.nodes[k]) == before.nodes[k],
            decreases self.nodes.len() - i,
        {
            let ghost current: Seq<NodeView> = self@.nodes;
            assert(current[i as int] == self.nodes@[i as int]@);
            self.nodes[i].selected = value;
            assert(self@.nodes =~= current.update(i as int, ticked(before.nodes[i as int], value)));
            i += 1;
        }
        assert(self@.nodes =~= all_ticked(before, value).nodes);
    }

    /// The total of the known sizes of selected nodes.
    pub fn total_selected_bytes(&self) -> (r: i64)
        requires
            bytes_fit(self@.nodes),
        ensures
            r == selected_bytes(self@.nodes),
    {
        match self.checked_selected_bytes() {
            Some(total) => total,
            None => {
                // The sizes can be added up, as required.
                assert(false);
                0
            },
        }
    }

    /// The total of the known sizes of selected nodes; `None` if they cannot be added up one
    /// after the other.
    pub fn checked_selected_bytes(&self) -> (r: Option<i64>)
        ensures
            match r {
                Some(total) => bytes_fit(self@.nodes) && total == selected_bytes(self@.nodes),
                None => !bytes_fit(self@.nodes),
            },
    {
        let ghost all: Seq<NodeView> = self@.nodes;
        let mut total: i64 = 0;
        let mut i: usize = 0;
        assert(selected_bytes(all.take(0)) == 0);
        while i < self.nodes.len()
            invariant
                i <= self.nodes@.len(),
                all == self@.nodes,
                total == selected_bytes(all.take(i as int)),
                forall|k: int|
                    0 <= k <= i ==> i64::MIN <= selected_bytes(#[trigger] all.take(k)) <= i64::MAX,
            decreases self.nodes.len() - i,
        {
            proof {
                assert(all[i as int] == self.nodes@[i as int]@);
                assert(all.take(i + 1).drop_last() =~= all.take(i as int));
                assert(all.take(i + 1).last() == all[i as int]);
            }
            if self.nodes[i].selected {
                match self.nodes[i].size_bytes {
                    Some(size) => match total.checked_add(size) {
                        Some(sum) => {
                            total = sum;
                        },
                        None => {
                            assert(!(i64::MIN <= selected_bytes(all.take(i + 1)) <= i64::MAX));
                            return None;
                        },
                    },
                    None => {},
                }
            }
            i += 1;
        }
        assert(all.take(i as int) =~= all);
        Some(total)
    }

    /// The number of selected nodes.
    pub fn selected_count(&self) -> (r: usize)
        ensures
            r == count_selected(self@.nodes),
    {
        let ghost all: Seq<NodeView> = self@.nodes;
        let ghost p = |n: NodeView| n.selected;
        let mut count: usize = 0;
        let mut i: usize = 0;
        proof {
            reveal(Seq::filter);
            assert(all.take(0).filter(p) =~= Seq::<NodeView>::empty());
        }
        while i < self.nodes.len()
            invariant
                i <= self.nodes@.len(),
                count <= i,
                all == self@.nodes,
                p == (|n: NodeView| n.selected),
                count == all.take(i as int).filter(p).len(),
            decreases self.nodes.len() - i,
        {
            proof {
                assert(all[i as int] == self.nodes@[i as int]@);
                assert(all.take(i + 1) =~= all.take(i as int).push(all[i as int]));
                all.take(i as int).lemma_filter_push(all[i as int], p);
            }
            if self.nodes[i].selected {
                count += 1;
            }
            i += 1;
        }
        assert(all.take(i as int) =~= all);
        count
    }
}

// ---------------------------------------------------------------------------
// Keys
// ---------------------------------------------------------------------------

/// A key that was pressed.
#[derive(Debug, Clone, Copy, PartialEq, Eq, Structural)]
pub enum Key {
    Char { c: char },
    Enter,
    Esc,
    Up,
    Down,
    Other,
}

/// Whether the selector goes on.
#[derive(Debug, Clone, Copy, PartialEq, Eq, Structural)]
pub enum Flow {
    Continue,
    Cancel,
    Confirm,
}

/// What a key means for the selector.
pub open spec fn flow_after(key: Key) -> Flow {
    match key {
        Key::Esc => Flow::Cancel,
        Key::Char { c } => if c == 'q' {
            Flow::Cancel
        } else {
            Flow::Continue
        },
        Key::Enter => Flow::Confirm,
        _ => Flow::Continue,
    }
}

/// The list after a key.
pub open spec fn app_after(app: AppView, key: Key) -> AppView {
    match key {
        Key::Up => moved_up(app),
        Key::Down => moved_down(app),
        Key::Char { c } => if c == ' ' {
            toggled(app)
        } else if c == 'a' {
            all_ticked(app, true)
        } else if c == 'n' {
            all_ticked(app, false)
        } else if c == 'k' {
            moved_up(app)
        } else if c == 'j' {
            moved_down(app)
        } else {
            app
        },
        _ => app,
    }
}

impl App {
    /// Takes in a key.
    pub fn handle_key(&mut self, key: Key) -> (r: Flow)
        requires
            app_ok(old(self)@),
        ensures
            app_ok(final(self)@),
            final(self)@ == app_after(old(self)@, key),
            r == flow_after(key),
    {
        match key {
            Key::Esc => Flow::Cancel,
            Key::Enter => Flow::Confirm,
            Key::Up => {
                self.move_up();
                Flow::Continue
            },
            Key::Down => {
                self.move_down();
                Flow::Continue
            },
            Key::Char { c } => {
                if c == 'q' {
                    return Flow::Cancel;
                }
                if c == ' ' {
                    self.toggle_selected();
                } else if c == 'a' {
                    self.select_all(true);
                } else if c == 'n' {
                    self.select_all(false);
                } else if c == 'k' {
                    self.move_up();
                } else if c == 'j' {
                    self.move_down();
                }
                Flow::Continue
            },
            Key::Other => Flow::Continue,
        }
    }
}

// ---------------------------------------------------------------------------
// Nodes and selected folders
// ---------------------------------------------------------------------------

/// The node for an entry of the root listing: a directory, not selected.
pub open spec fn node_of(entry: EntryView) -> Option<NodeView> {
    if entry.is_dir {
        Some(
            NodeView {
                path: entry.name,
                depth: 0,
                selected: false,
                size_bytes: entry.size_bytes,
            },
        )
    } else {
        None
    }
}

/// The nodes for the entries of the root listing.
pub open spec fn nodes_of(entries: Seq<EntryView>) -> Seq<NodeView> {
    entries.filter_map(|e: EntryView| node_of(e))
}

/// The nodes for the directories of the root listing.
pub fn build_nodes(entries: &Vec<DirEntry>) -> (r: Vec<FolderNode>)
    ensures
        node_views(r@) == nodes_of(entry_views(entries@)),
{
    let ghost all: Seq<EntryView> = entry_views(entries@);
    let ghost f = |e: EntryView| node_of(e);
    let mut out: Vec<FolderNode> = Vec::new();
    let mut i: usize = 0;
    proof {
        assert(all.take(0) =~= Seq::<EntryView>::empty());
        assert(node_views(out@) =~= all.take(0).filter_map(f));
    }
    while i < entries.len()
        invariant
            i <= entries@.len(),
            all == entry_views(entries@),
            f == (|e: EntryView| node_of(e)),
            node_views(out@) == all.take(i as int).filter_map(f),
        decreases entries.len() - i,
    {
        proof {
            all.lemma_filter_map_take_succ(f, i as int);
            assert(all[i as int] == entries@[i as int]@);
        }
        let ghost before: Seq<NodeView> = node_views(out@);
        if entries[i].is_dir {
            let node = FolderNode {
                path: entries[i].name.clone(),
                depth: 0,
                selected: false,
                size_bytes: entries[i].size_bytes,
            };
            let ghost view: NodeView = node@;
            out.push(node);
            assert(node_views(out@) =~= before.push(view));
            assert(node_views(out@) =~= all.take(i + 1).filter_map(f));
        } else {
            assert(node_views(out@) =~= all.take(i + 1).filter_map(f));
        }
        i += 1;
    }
    assert(all.take(i as int) =~= all);
    out
}

/// The path of a folder, if it is enabled.
pub open spec fn enabled_path(folder: FolderView) -> Option<Seq<char>> {
    if folder.enabled {
        Some(folder.path)
    } else {
        None
    }
}

/// The paths of enabled folders, in their order.
pub open spec fn enabled_paths_of(folders: Seq<FolderView>) -> Seq<Seq<char>> {
    folders.filter_map(|f: FolderView| enabled_path(f))
}

/// The paths of enabled folders.
pub fn enabled_paths(folders: &Vec<SelectedFolder>) -> (r: Vec<String>)
    ensures
        texts(r@) == enabled_paths_of(folder_views(folders@)),
{
    let ghost all: Seq<FolderView> = folder_views(folders@);
    let ghost f = |f: FolderView| enabled_path(f);
    let mut out: Vec<String> = Vec::new();
    let mut i: usize = 0;
    proof {
        assert(all.take(0) =~= Seq::<FolderView>::empty());
        assert(texts(out@) =~= all.take(0).filter_map(f));
    }
    while i < folders.len()
        invariant
            i <= folders@.len(),
            all == folder_views(folders@),
            f == (|f: FolderView| enabled_path(f)),
            texts(out@) == all.take(i as int).filter_map(f),
        decreases folders.len() - i,
    {
        proof {
            all.lemma_filter_map_take_succ(f, i as int);
            assert(all[i as int] == folders@[i as int]@);
        }
        let ghost before: Seq<Seq<char>> = texts(out@);
        if folders[i].enabled {
            out.push(folders[i].path.clone());
            assert(texts(out@) =~= before.push(all[i as int].path));
            assert(texts(out@) =~= all.take(i + 1).filter_map(f));
        } else {
            assert(texts(out@) =~= all.take(i + 1).filter_map(f));
        }
        i += 1;
    }
    assert(all.take(i as int) =~= all);
    out
}

/// Whether a folder with this path is enabled.
pub open spec fn is_enabled(folders: Seq<FolderView>, path: Seq<char>) -> bool {
    exists|i: int| 0 <= i < folders.len() && (#[trigger] folders[i]).path == path && folders[i].enabled
}

/// Ticks the boxes of the folders that were selected before, and clears the others.
pub fn restore_selection(nodes: &mut Vec<FolderNode>, folders: &Vec<SelectedFolder>)
    ensures
        node_views(final(nodes)@) == node_views(old(nodes)@).map_values(
            |n: NodeView| ticked(n, is_enabled(folder_views(folders@), n.path)),
        ),
{
    let ghost before: Seq<NodeView> = node_views(nodes@);
    let ghost saved: Seq<FolderView> = folder_views(folders@);
    let mut i: usize = 0;
    while i < nodes.len()
        invariant
            i <= nodes@.len(),
            nodes@.len() == before.len(),
            saved == folder_views(folders@),
            forall|k: int|
                0 <= k < i ==> (#[trigger] node_views(nodes@)[k]) == ticked(
                    before[k],
                    is_enabled(saved, before[k].path),
                ),
            forall|k: int|
                i <= k < before.len() ==> (#[trigger] node_views(nodes@)[k]) == before[k],
        decreases nodes.len() - i,
    {
        let ghost current: Seq<NodeView> = node_views(nodes@);
        assert(current[i as int] == nodes@[i as int]@);
        let mut found: bool = false;
        let mut j: usize = 0;
        while j < folders.len()
            invariant
                i < nodes@.len(),
                nodes@.len() == before.len(),
                before[i as int].path == nodes@[i as int].path@,
                j <= folders@.len(),
                saved == folder_views(folders@),
                found == exists|k: int|
                    0 <= k < j && (#[trigger] saved[k]).path == before[i as int].path
                        && saved[k].enabled,
            decreases folders.len() - j,
        {
            assert(saved[j as int] == folders@[j as int]@);
            if folders[j].enabled && same_text(folders[j].path.as_str(), nodes[i].path.as_str()) {
                found = true;
            }
            j += 1;
        }
        nodes[i].selected = found;
        assert(node_views(nodes@) =~= current.update(i as int, ticked(before[i as int], found)));
        i += 1;
    }
    assert(node_views(nodes@) =~= before.map_values(
        |n: NodeView| ticked(n, is_enabled(saved, n.path)),
    ));
}

/// The folder to save for a node.
pub open spec fn folder_of(node: NodeView) -> FolderView {
    FolderView { path: node.path, enabled: node.selected, size_bytes: node.size_bytes }
}

/// The folders to save.
pub fn folders_from(nodes: &Vec<FolderNode>) -> (r: Vec<SelectedFolder>)
    ensures
        folder_views(r@) == node_views(nodes@).map_values(|n: NodeView| folder_of(n)),
{
    let mut out: Vec<SelectedFolder> = Vec::new();
    let mut i: usize = 0;
    while i < nodes.len()
        invariant
            i <= nodes@.len(),
            out@.len() == i,
            forall|k: int| 0 <= k < i ==> (#[trigger] out@[k])@ == folder_of(nodes@[k]@),
        decreases nodes.len() - i,
    {
        out.push(
            SelectedFolder {
                path: nodes[i].path.clone(),
                enabled: nodes[i].selected,
                size_bytes: nodes[i].size_bytes,
            },
        );
        i += 1;
    }
    assert(folder_views(out@) =~= node_views(nodes@).map_values(|n: NodeView| folder_of(n)));
    out
}

// ---------------------------------------------------------------------------
// Texts
// ---------------------------------------------------------------------------

/// The box of a node.
pub fn checkbox(selected: bool) -> (r: &'static str)
    ensures
        r@ == (if selected {
            "[ ✓ ]"@
        } else {
            "[   ]"@
        }),
{
    if selected {
        "[ ✓ ]"
    } else {
        "[   ]"
    }
}

/// The indentation of a node: two spaces for each level.
pub open spec fn indent_of(depth: nat) -> Seq<char> {
    Seq::new(2 * depth, |i: int| ' ')
}

/// The indentation of a node.
pub fn indent(depth: usize) -> (r: String)
    ensures
        r@ == indent_of(depth as nat),
{
    let mut text: String = String::new();
    let mut i: usize = 0;
    assert(text@ =~= indent_of(0));
    while i < depth
        invariant
            i <= depth,
            text@ == indent_of(i as nat),
        decreases depth - i,
    {
        text.push(' ');
        text.push(' ');
        i += 1;
        assert(text@ =~= indent_of(i as nat));
    }
    text
}

/// The size of a node in brackets, if it is known.
pub open spec fn node_size(size_bytes: Option<i64>) -> Seq<char> {
    match size_bytes {
        Some(size) => " ("@ + byte_size(as_unsigned(size)) + ")"@,
        None => Seq::empty(),
    }
}

/// The size of a node in brackets.
pub fn node_size_text(size_bytes: Option<i64>) -> (r: String)
    ensures
        r@ == node_size(size_bytes),
{
    match size_bytes {
        Some(size) => {
            let mut text: String = " (".to_owned();
            text.append(byte_size_text(to_unsigned(size)).as_str());
            text.append(")");
            text
        },
        None => String::new(),
    }
}

/// The ending of a plural.
pub open spec fn plural(count: nat) -> Seq<char> {
    if count == 1 {
        ""@
    } else {
        "s"@
    }
}

/// The ending of a plural.
fn plural_ending(count: usize) -> (r: &'static str)
    ensures
        r@ == plural(count as nat),
{
    if count == 1 {
        ""
    } else {
        "s"
    }
}

/// The status line under the list.
pub open spec fn status_line(selected_count: nat, total_bytes: i64) -> Seq<char> {
    " Selected: "@ + decimal(selected_count) + " folder"@ + plural(selected_count) + "  |  Total: "@
        + (if total_bytes > 0 {
        byte_size(total_bytes as u64)
    } else {
        "—"@
    }) + "  "@
}

/// The status line under the list.
pub fn status_text(selected_count: usize, total_bytes: i64) -> (r: String)
    ensures
        r@ == status_line(selected_count as nat, total_bytes),
{
    let mut text: String = " Selected: ".to_owned();
    push_decimal(&mut text, selected_count as u64);
    text.append(" folder");
    text.append(plural_ending(selected_count));
    text.append("  |  Total: ");
    if total_bytes > 0 {
        text.append(byte_size_text(total_bytes as u64).as_str());
    } else {
        text.append("—");
    }
    text.append("  ");
    text
}

/// The message after saving.
pub fn saved_text(selected_count: usize) -> (r: String)
    ensures
        r@ == "Saved "@ + decimal(selected_count as nat) + " folder selection"@ + plural(
            selected_count as nat,
        ) + "."@,
{
    let mut text: String = "Saved ".to_owned();
    push_decimal(&mut text, selected_count as u64);
    text.append(" folder selection");
    text.append(plural_ending(selected_count));
    text.append(".");
    text
}

// ---------------------------------------------------------------------------
// Laws
// ---------------------------------------------------------------------------

/// Going up and down undo each other, also over the ends of the list.
pub proof fn law_moves_undo_each_other(app: AppView)
    requires
        app_ok(app),
        app.nodes.len() <= usize::MAX,
    ensures
        moved_up(moved_down(app)) == app,
        moved_down(moved_up(app)) == app,
{
}

/// Changing a box twice leaves the list as it was, and changing it once leaves the other boxes
/// alone.
pub proof fn law_toggling_undoes_itself(app: AppView, i: int)
    requires
        app_ok(app),
        0 <= i < app.nodes.len(),
    ensures
        toggled(toggled(app)) == app,
        app.cursor != Some(i as usize) && i <= usize::MAX ==> toggled(app).nodes[i] == app.nodes[i],
{
    assert(toggled(toggled(app)).nodes =~= app.nodes);
}

/// Ticking all boxes selects every node, clearing all selects none.
pub proof fn law_all_or_none(app: AppView)
    ensures
        count_selected(all_ticked(app, true).nodes) == app.nodes.len(),
        count_selected(all_ticked(app, false).nodes) == 0,
{
    lemma_all_selected(all_ticked(app, true).nodes);
    lemma_none_selected(all_ticked(app, false).nodes);
}

proof fn lemma_all_selected(nodes: Seq<NodeView>)
    requires
        forall|i: int| 0 <= i < nodes.len() ==> (#[trigger] nodes[i]).selected,
    ensures
        count_selected(nodes) == nodes.len(),
    decreases nodes.len(),
{
    reveal(Seq::filter);
    if nodes.len() > 0 {
        lemma_all_selected(nodes.drop_last());
        assert(nodes[nodes.len() - 1].selected);
    }
}

proof fn lemma_none_selected(nodes: Seq<NodeView>)
    requires
        forall|i: int| 0 <= i < nodes.len() ==> !(#[trigger] nodes[i]).selected,
    ensures
        count_selected(nodes) == 0,
    decreases nodes.len(),
{
    reveal(Seq::filter);
    if nodes.len() > 0 {
        lemma_none_selected(nodes.drop_last());
        assert(!nodes[nodes.len() - 1].selected);
    }
}

/// A selection that was saved is restored: nodes with distinct paths get back the boxes with
/// which they were saved.
pub proof fn law_selection_is_restored(nodes: Seq<NodeView>, i: int)
    requires
        0 <= i < nodes.len(),
        folders_ok(nodes.map_values(|n: NodeView| folder_of(n))),
    ensures
        ticked(
            ticked(nodes[i], false),
            is_enabled(nodes.map_values(|n: NodeView| folder_of(n)), nodes[i].path),
        ) == nodes[i],
{
    let folders = nodes.map_values(|n: NodeView| folder_of(n));
    assert(folders[i] == folder_of(nodes[i]));
    if is_enabled(folders, nodes[i].path) {
        let k = choose|k: int|
            0 <= k < folders.len() && (#[trigger] folders[k]).path == nodes[i].path
                && folders[k].enabled;
        if k < i {
            assert(folders[k].path != folders[i].path);
        } else if i < k {
            assert(folders[i].path != folders[k].path);
        }
    }
}

/// The cursor goes to the next node and the one before, and round at the ends; nothing else
/// changes.
pub proof fn law_cursor_goes_round(app: AppView, i: usize)
    requires
        app.cursor == Some(i),
        i < app.nodes.len() <= usize::MAX,
    ensures
        moved_down(app).nodes == app.nodes,
        moved_up(app).nodes == app.nodes,
        i + 1 < app.nodes.len() ==> moved_down(app).cursor == Some((i + 1) as usize),
        i + 1 == app.nodes.len() ==> moved_down(app).cursor == Some(0usize),
        i > 0 ==> moved_up(app).cursor == Some((i - 1) as usize),
        i == 0 ==> moved_up(app).cursor == Some((app.nodes.len() - 1) as usize),
{
}

/// The space bar changes the box under the cursor and no other; `a` ticks all boxes and `n` clears
/// them; names, sizes and the cursor stay.
pub proof fn law_keys_change_boxes(app: AppView, at: usize, i: int)
    requires
        app.cursor == Some(at),
        at < app.nodes.len() <= usize::MAX,
        0 <= i < app.nodes.len(),
    ensures
        app_after(app, Key::Char { c: ' ' }).cursor == app.cursor,
        app_after(app, Key::Char { c: ' ' }).nodes.len() == app.nodes.len(),
        app_after(app, Key::Char { c: ' ' }).nodes[i] == (if i == at {
            NodeView { selected: !app.nodes[i].selected, ..app.nodes[i] }
        } else {
            app.nodes[i]
        }),
        app_after(app, Key::Char { c: 'a' }).nodes[i] == (NodeView {
            selected: true,
            ..app.nodes[i]
        }),
        app_after(app, Key::Char { c: 'n' }).nodes[i] == (NodeView {
            selected: false,
            ..app.nodes[i]
        }),
        app_after(app, Key::Char { c: 'a' }).nodes.len() == app.nodes.len(),
        app_after(app, Key::Char { c: 'n' }).nodes.len() == app.nodes.len(),
        app_after(app, Key::Char { c: 'a' }).cursor == app.cursor,
        app_after(app, Key::Char { c: 'n' }).cursor == app.cursor,
{
}

/// The arrow keys and the letters `k` and `j` move the cursor; every other key but the space bar
/// and those that change all boxes leaves the list as it is.
pub proof fn law_keys_move_the_cursor(app: AppView, key: Key)
    requires
        app_ok(app),
        app.nodes.len() <= usize::MAX,
    ensures
        app_after(app, Key::Up) == app_after(app, Key::Char { c: 'k' }),
        app_after(app, Key::Down) == app_after(app, Key::Char { c: 'j' }),
        app.cursor matches Some(i) ==> i + 1 < app.nodes.len() ==> app_after(app, Key::Down).cursor
            == Some((i + 1) as usize),
        app.cursor matches Some(i) ==> i > 0 ==> app_after(app, Key::Up).cursor == Some(
            (i - 1) as usize,
        ),
        app_after(app_after(app, Key::Up), Key::Down) == app,
        app_after(app_after(app, Key::Down), Key::Up) == app,
        key != Key::Up && key != Key::Down && key != (Key::Char { c: 'k' }) && key != (Key::Char {
            c: 'j',
        }) && key != (Key::Char { c: ' ' }) && key != (Key::Char { c: 'a' }) && key != (Key::Char {
            c: 'n',
        }) ==> app_after(app, key) == app,
{
    law_moves_undo_each_other(app);
}

/// The selection is confirmed by the enter key alone, and given up by the escape key and `q`
/// alone.
pub proof fn law_keys_end_the_selection(key: Key)
    ensures
        flow_after(key) == Flow::Confirm <==> key == Key::Enter,
        flow_after(key) == Flow::Cancel <==> key == Key::Esc || key == (Key::Char { c: 'q' }),
{
}

/// The selected bytes are the known sizes of the selected nodes, and the selected nodes are
/// counted, each and no other.
pub proof fn law_selected_bytes_add_up(nodes: Seq<NodeView>, node: NodeView)
    ensures
        selected_bytes(nodes.push(node)) == selected_bytes(nodes) + (if node.selected {
            match node.size_bytes {
                Some(size) => size as int,
                None => 0,
            }
        } else {
            0
        }),
        selected_bytes(Seq::empty()) == 0,
        count_selected(nodes.push(node)) == count_selected(nodes) + (if node.selected {
            1int
        } else {
            0int
        }),
        count_selected(Seq::empty()) == 0,
{
    reveal(Seq::filter);
    assert(nodes.push(node).drop_last() =~= nodes);
    nodes.lemma_filter_push(node, |n: NodeView| n.selected);
}

/// Every directory of a listing is offered, and no file: under its name and not selected.
pub proof fn law_directories_are_offered(entries: Seq<EntryView>, more: Seq<EntryView>, node: NodeView)
    ensures
        nodes_of(entries).contains(node) <==> exists|i: int|
            0 <= i < entries.len() && (#[trigger] entries[i]).is_dir && entries[i].name == node.path
                && entries[i].size_bytes == node.size_bytes && !node.selected && node.depth == 0,
        nodes_of(entries + more) == nodes_of(entries) + nodes_of(more),
{
    let f = |e: EntryView| node_of(e);
    lemma_picked(entries, f, node);
    lemma_picked_from_both(entries, more, f);
    if nodes_of(entries).contains(node) {
        let i = choose|i: int| 0 <= i < entries.len() && #[trigger] f(entries[i]) == Some(node);
        assert(entries[i].is_dir);
    }
    if exists|i: int|
        0 <= i < entries.len() && (#[trigger] entries[i]).is_dir && entries[i].name == node.path
            && entries[i].size_bytes == node.size_bytes && !node.selected && node.depth == 0 {
        let i = choose|i: int|
            0 <= i < entries.len() && (#[trigger] entries[i]).is_dir && entries[i].name == node.path
                && entries[i].size_bytes == node.size_bytes && !node.selected && node.depth == 0;
        assert(f(entries[i]) == Some(node));
    }
}

/// The enabled folders of a selection are found, each and no other, in their order.
pub proof fn law_enabled_folders_are_found(folders: Seq<FolderView>, path: Seq<char>)
    ensures
        enabled_paths_of(folders).contains(path) <==> exists|i: int|
            0 <= i < folders.len() && (#[trigger] folders[i]).path == path && folders[i].enabled,
        is_enabled(folders, path) <==> enabled_paths_of(folders).contains(path),
        forall|more: Seq<FolderView>| #[trigger]
            enabled_paths_of(folders + more) == enabled_paths_of(folders) + enabled_paths_of(more),
{
    let f = |folder: FolderView| enabled_path(folder);
    lemma_picked(folders, f, path);
    if enabled_paths_of(folders).contains(path) {
        let i = choose|i: int| 0 <= i < folders.len() && #[trigger] f(folders[i]) == Some(path);
        assert(folders[i].path == path && folders[i].enabled);
    }
    if is_enabled(folders, path) {
        let i = choose|i: int|
            0 <= i < folders.len() && (#[trigger] folders[i]).path == path && folders[i].enabled;
        assert(f(folders[i]) == Some(path));
    }
    assert forall|more: Seq<FolderView>| #[trigger]
        enabled_paths_of(folders + more) == enabled_paths_of(folders) + enabled_paths_of(more) by {
        lemma_picked_from_both(folders, more, f);
    }
}

/// What is saved of a node is its name, whether it is selected, and its size.
pub proof fn law_saved_folders_show_their_nodes(node: NodeView)
    ensures
        folder_of(node) == (FolderView {
            path: node.path,
            enabled: node.selected,
            size_bytes: node.size_bytes,
        }),
{
}

/// Nodes are indented by two spaces for each level.
pub proof fn law_levels_are_indented(depth: nat)
    ensures
        indent_of(depth + 1) == indent_of(depth) + seq![' ', ' '],
        indent_of(0).len() == 0,
{
    assert(indent_of(depth + 1) =~= indent_of(depth) + seq![' ', ' ']);
}

/// One folder is named in the singular, and every other number of them in the plural.
pub proof fn law_one_is_singular(count: nat)
    ensures
        plural(count) == (if count == 1 {
            ""@
        } else {
            "s"@
        }),
        plural(count).len() == 0 <==> count == 1,
{
    reveal_strlit("");
    reveal_strlit("s");
}

/// A folder whose size is not known shows none; one whose size is known shows it in brackets.
pub proof fn law_known_sizes_are_shown(size: i64)
    requires
        size >= 0,
    ensures
        node_size(None).len() == 0,
        node_size(Some(size)) == " ("@ + byte_size(size as u64) + ")"@,
{
}

} // verus!
