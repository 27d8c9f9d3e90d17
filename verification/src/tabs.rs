//! The editor's open files: which tab shows, what opening, closing and
//! switching do to them, and the window title.
use vstd::prelude::*;
use crate::text::chars_of;
use crate::fontpack::chars_eq;

verus! {

/// One open file of the editor.
pub struct EditorTab {
    pub path: Option<String>,
    pub title: String,
    pub content: String,
    pub dirty: bool,
    pub target_name: String,
}

/// What a tab holds, as plain values.
pub struct TabV {
    pub path: Option<Seq<char>>,
    pub title: Seq<char>,
    pub content: Seq<char>,
    pub dirty: bool,
    pub target: Seq<char>,
}

pub open spec fn path_view(p: Option<String>) -> Option<Seq<char>> {
    match p {
        Some(s) => Some(s@),
        None => None,
    }
}

pub open spec fn tab_view(t: EditorTab) -> TabV {
    TabV { path: path_view(t.path), title: t.title@, content: t.content@, dirty: t.dirty, target: t.target_name@ }
}

pub open spec fn tabs_view(v: Seq<EditorTab>) -> Seq<TabV> {
    v.map_values(|t: EditorTab| tab_view(t))
}

/// The title of a tab without a file name.
pub open spec fn untitled() -> Seq<char> {
    "未命名.lua"@
}

/// The bytecode file a new tab compiles to.
pub open spec fn default_target() -> Seq<char> {
    "main.luac"@
}

/// The empty tab the editor starts with, and keeps when the last tab closes.
pub open spec fn fresh_tab() -> TabV {
    TabV { path: None, title: untitled(), content: Seq::empty(), dirty: false, target: default_target() }
}

/// `name` is a contiguous part of `path`.
pub open spec fn part_of(name: Seq<char>, path: Seq<char>) -> bool {
    exists|i: int, j: int| 0 <= i <= j <= path.len() && name == path.subrange(i, j)
}

/// A single path component that no platform reads otherwise: not empty,
/// not `.` or `..`, and without `/`, `\` or `:`.
pub open spec fn plain_name(n: Seq<char>) -> bool {
    &&& n.len() > 0
    &&& n != seq!['.']
    &&& n != seq!['.', '.']
    &&& forall|i: int| 0 <= i < n.len() ==> #[trigger] n[i] != '/' && n[i] != '\\' && n[i] != ':'
}

/// The index of the last `/` in `p`, or -1.
pub open spec fn last_slash(p: Seq<char>) -> int
    decreases p.len(),
{
    if p.len() == 0 {
        -1
    } else if p.last() == '/' {
        p.len() - 1
    } else {
        last_slash(p.drop_last())
    }
}

/// The file name of `p` where every platform agrees on it: `p` itself when
/// it is a plain name, or the plain name after its last `/` when nothing
/// before that slash can start a platform prefix (no `\`, no `:`, and `p`
/// does not begin with `//`). Otherwise `None`: no claim is made.
pub open spec fn plain_file_name(p: Seq<char>) -> Option<Seq<char>> {
    let k = last_slash(p);
    if plain_name(p) {
        Some(p)
    } else if k >= 0 && plain_name(p.skip(k + 1)) && (forall|i: int|
        0 <= i < k ==> #[trigger] p[i] != '\\' && p[i] != ':') && !(p.len() >= 2 && p[0] == '/' && p[1] == '/') {
        Some(p.skip(k + 1))
    } else {
        None
    }
}

/// `title` is what a tab for `path` is called: the untitled title without
/// a path; the file name where every platform agrees on it (see
/// [`plain_file_name`]); otherwise the untitled title or a non-empty part of
/// the path.
pub open spec fn title_for(title: Seq<char>, path: Option<Seq<char>>) -> bool {
    match path {
        None => title == untitled(),
        Some(p) => match plain_file_name(p) {
            Some(n) => title == n,
            None => title == untitled() || (part_of(title, p) && title.len() > 0),
        },
    }
}

/// The final component of `path`, as `std::path::Path::file_name` gives it:
/// a non-empty part of the path, and the path's plain file name where every
/// platform agrees on it (see [`plain_file_name`]). Which other characters
/// separate components or start a prefix depends on the platform, and that
/// is not stated.
#[verifier::external_body]
fn file_name_of(path: &str) -> (r: Option<String>)
    ensures
        match r {
            Some(n) => part_of(n@, path@) && n@.len() > 0,
            None => true,
        },
        plain_file_name(path@) is Some ==> r is Some && r->0@ == plain_file_name(path@)->0,
{
    match std::path::Path::new(path).file_name() {
        Some(name) => match name.to_str() {
            Some(s) => Some(s.to_string()),
            None => None,
        },
        None => None,
    }
}

/// The label of a file name: the name, or the untitled title when there
/// is none.
pub open spec fn name_label(name: Option<String>) -> Seq<char> {
    match name {
        Some(n) => n@,
        None => untitled(),
    }
}

/// A tab's title from the file name of its path (see [`name_label`]).
pub fn title_from_name(name: Option<String>) -> (r: String)
    ensures
        r@ == name_label(name),
{
    match name {
        Some(n) => n,
        None => String::from_str("未命名.lua"),
    }
}

/// The title of a tab for `path`: its file name, or the untitled title.
pub fn tab_title_for(path: &Option<String>) -> (r: String)
    ensures
        title_for(r@, path_view(*path)),
{
    match path {
        Some(p) => {
            let name = file_name_of(p.as_str());
            title_from_name(name)
        },
        None => title_from_name(None),
    }
}

/// The window title: a file label, ` *` when there are unsaved changes,
/// and ` — ` with the project's label when a project is open.
pub open spec fn title_text(file: Seq<char>, dirty: bool, project: Option<Seq<char>>) -> Seq<char> {
    let head = file + (if dirty { " *"@ } else { Seq::<char>::empty() });
    match project {
        Some(s) => head + " — "@ + s,
        None => head,
    }
}

/// The window title from the file name of the source, the dirty flag and,
/// with a project, the folder name of the project or else its name.
pub fn window_title_from(file_name: Option<String>, dirty: bool, project: Option<(Option<String>, &str)>) -> (r: String)
    ensures
        r@ == title_text(
            name_label(file_name),
            dirty,
            match project {
                Some((Some(d), _)) => Some(d@),
                Some((None, name)) => Some(name@),
                None => None,
            },
        ),
{
    let mut r = title_from_name(file_name);
    if dirty {
        r.append(" *");
    }
    match project {
        Some((folder, name)) => {
            r.append(" — ");
            match folder {
                Some(d) => r.append(d.as_str()),
                None => r.append(name),
            }
        },
        None => {},
    }
    r
}

/// `x` is what the window title calls the project in folder `d` named
/// `name`: the folder's file name where every platform agrees on it (see
/// [`plain_file_name`]); otherwise the project's name or a non-empty part of
/// the folder path.
pub open spec fn project_label(x: Seq<char>, d: Seq<char>, name: Seq<char>) -> bool {
    match plain_file_name(d) {
        Some(n) => x == n,
        None => x == name || (part_of(x, d) && x.len() > 0),
    }
}

/// The window title for the source at `source_path` (see
/// [`window_title_from`]); the labels are file names taken from the paths.
pub fn window_title(source_path: &Option<String>, dirty: bool, project_dir: &Option<String>, project_name: &str) -> (r: String)
    ensures
        exists|f: Seq<char>, s: Option<Seq<char>>|
            #![trigger title_text(f, dirty, s)]
            title_for(f, path_view(*source_path)) && r@ == title_text(f, dirty, s) && match *project_dir {
                None => s is None,
                Some(d) => s is Some && project_label(s->0, d@, project_name@),
            },
{
    let file = match source_path {
        Some(p) => file_name_of(p.as_str()),
        None => None,
    };
    let ghost f = name_label(file);
    match project_dir {
        Some(d) => {
            let folder = file_name_of(d.as_str());
            let ghost s = Some(match path_view(folder) {
                Some(x) => x,
                None => project_name@,
            });
            let r = window_title_from(file, dirty, Some((folder, project_name)));
            assert(title_text(f, dirty, s) == r@);
            r
        },
        None => {
            let r = window_title_from(file, dirty, None);
            assert(title_text(f, dirty, None) == r@);
            r
        },
    }
}

fn fresh() -> (t: EditorTab)
    ensures
        tab_view(t) == fresh_tab(),
{
    EditorTab {
        path: None,
        title: String::from_str("未命名.lua"),
        content: String::new(),
        dirty: false,
        target_name: String::from_str("main.luac"),
    }
}

fn clone_path(p: &Option<String>) -> (r: Option<String>)
    ensures
        r == *p,
{
    match p {
        Some(s) => Some(s.clone()),
        None => None,
    }
}

fn str_eq(a: &str, b: &str) -> (r: bool)
    ensures
        r == (a@ == b@),
{
    let x = chars_of(a);
    let y = chars_of(b);
    chars_eq(x.as_slice(), y.as_slice())
}

fn same_path(a: &Option<String>, b: &Option<String>) -> (r: bool)
    ensures
        r == (path_view(*a) == path_view(*b)),
{
    match (a, b) {
        (Some(x), Some(y)) => *x == *y,
        (None, None) => true,
        _ => false,
    }
}

/// The index of the first tab whose path is `p`, or the number of tabs.
pub open spec fn find_path(ts: Seq<TabV>, p: Seq<char>) -> nat
    decreases ts.len(),
{
    if ts.len() == 0 {
        0
    } else if ts[0].path == Some(p) {
        0
    } else {
        1 + find_path(ts.drop_first(), p)
    }
}

proof fn lemma_find_path(ts: Seq<TabV>, p: Seq<char>)
    ensures
        find_path(ts, p) <= ts.len(),
        forall|j: int| 0 <= j < find_path(ts, p) ==> #[trigger] ts[j].path != Some(p),
        find_path(ts, p) < ts.len() ==> ts[find_path(ts, p) as int].path == Some(p),
    decreases ts.len(),
{
    if ts.len() > 0 && ts[0].path != Some(p) {
        lemma_find_path(ts.drop_first(), p);
        assert forall|j: int| 0 <= j < find_path(ts, p) implies #[trigger] ts[j].path != Some(p) by {
            if j > 0 {
                assert(ts[j] == ts.drop_first()[j - 1]);
            }
        }
    }
}

/// No file is open in two tabs.
pub open spec fn paths_distinct(ts: Seq<TabV>) -> bool {
    forall|i: int, j: int| 0 <= i < j < ts.len() && (#[trigger] ts[i]).path is Some ==> ts[i].path != (#[trigger] ts[j]).path
}

/// The active index after closing tab `idx` of `n + 1` tabs: the same tab
/// when another one closed, else the one that took its place, or the last.
pub open spec fn next_active(active: nat, idx: nat, n: nat) -> nat {
    if active > idx {
        (active - 1) as nat
    } else if active >= n {
        (n - 1) as nat
    } else {
        active
    }
}

/// Closing a tab other than the shown one keeps the shown tab; closing the
/// shown one shows a tab that is still open.
pub proof fn law_close_keeps_shown_tab(ts: Seq<TabV>, active: nat, idx: nat)
    requires
        ts.len() > 1,
        active < ts.len(),
        idx < ts.len(),
    ensures
        next_active(active, idx, (ts.len() - 1) as nat) < ts.len() - 1,
        idx != active ==> ts.remove(idx as int)[next_active(active, idx, (ts.len() - 1) as nat) as int] == ts[active as int],
{
}

/// The open tabs and which of them is shown.
pub struct EditorTabs {
    pub tabs: Vec<EditorTab>,
    pub active: usize,
}

impl View for EditorTabs {
    type V = (Seq<TabV>, nat);

    open spec fn view(&self) -> (Seq<TabV>, nat) {
        (tabs_view(self.tabs@), self.active as nat)
    }
}

impl EditorTabs {
    /// At least one tab is open and the active one is among them.
    pub open spec fn wf(&self) -> bool {
        self.tabs.len() >= 1 && self.active < self.tabs.len()
    }

    /// One empty untitled tab, shown.
    pub fn new() -> (r: Self)
        ensures
            r.wf(),
            r@ == (seq![fresh_tab()], 0nat),
    {
        let r = EditorTabs { tabs: vec![fresh()], active: 0 };
        assert(tabs_view(r.tabs@) =~= seq![fresh_tab()]);
        r
    }

    /// Stores the editor's text, path and target into the active tab (the
    /// last tab when the index is past the end); the tab becomes dirty when
    /// its text changed, which the result tells. Nothing happens without
    /// tabs.
    pub fn flush_active(&mut self, text: &str, source_path: &Option<String>, target: &str) -> (changed: bool)
        ensures
            final(self).active == old(self).active,
            final(self).tabs.len() == old(self).tabs.len(),
            old(self).tabs.len() == 0 ==> !changed,
            old(self).tabs.len() > 0 ==> {
                let i = if old(self).active < old(self).tabs.len() { old(self).active as int } else { old(self).tabs.len() - 1 };
                let t = old(self)@.0[i];
                let u = final(self)@.0[i];
                &&& changed == (t.content != text@)
                &&& u.content == text@
                &&& u.dirty == (t.dirty || changed)
                &&& u.path == path_view(*source_path)
                &&& title_for(u.title, u.path)
                &&& u.target == target@
                &&& forall|j: int| 0 <= j < old(self).tabs.len() && j != i ==> #[trigger] final(self)@.0[j] == old(self)@.0[j]
            },
            old(self).wf() ==> final(self).wf(),
    {
        let n = self.tabs.len();
        if n == 0 {
            return false;
        }
        let i = if self.active < n { self.active } else { n - 1 };
        let changed = !str_eq(self.tabs[i].content.as_str(), text);
        let ghost before = self.tabs@;
        if changed {
            self.tabs[i].content = String::from_str(text);
            self.tabs[i].dirty = true;
        }
        let path = clone_path(source_path);
        let title = tab_title_for(&path);
        self.tabs[i].path = path;
        self.tabs[i].title = title;
        self.tabs[i].target_name = String::from_str(target);
        proof {
            assert forall|j: int| 0 <= j < n && j != i implies #[trigger] tabs_view(self.tabs@)[j] == tabs_view(before)[j] by {
                assert(self.tabs@[j] == before[j]);
            }
        }
        proof {
            assert(tabs_view(self.tabs@)[i as int] == tab_view(self.tabs@[i as int]));
        }
        changed
    }

    /// The tab for `path`: the first tab open on that file (a file is not
    /// opened twice), else a new tab appended with `content` and `target`,
    /// also whenever there is no path. Returns its index.
    pub fn ensure_tab_for_path(&mut self, path: Option<String>, content: &str, target: &str) -> (r: usize)
        ensures
            match path_view(path) {
                Some(p) => find_path(old(self)@.0, p) < old(self).tabs.len(),
                None => false,
            } ==> r == find_path(old(self)@.0, path_view(path)->0) && final(self)@ == old(self)@,
            !match path_view(path) {
                Some(p) => find_path(old(self)@.0, p) < old(self).tabs.len(),
                None => false,
            } ==> {
                &&& r == old(self).tabs.len()
                &&& final(self).active == old(self).active
                &&& final(self)@.0.len() == old(self)@.0.len() + 1
                &&& final(self)@.0.take(r as int) == old(self)@.0
                &&& final(self)@.0[r as int].path == path_view(path)
                &&& title_for(final(self)@.0[r as int].title, path_view(path))
                &&& final(self)@.0[r as int].content == content@
                &&& !final(self)@.0[r as int].dirty
                &&& final(self)@.0[r as int].target == target@
            },
            r < final(self).tabs.len(),
            path_view(path) is Some ==> find_path(final(self)@.0, path_view(path)->0) == r,
            paths_distinct(old(self)@.0) ==> paths_distinct(final(self)@.0),
            old(self).wf() ==> final(self).wf(),
    {
        let n = self.tabs.len();
        let ghost ts = old(self)@.0;
        if path.is_some() {
            let ghost p = path_view(path)->0;
            proof {
                lemma_find_path(ts, p);
            }
            let mut i: usize = 0;
            while i < n
                invariant
                    i <= n,
                    n == self.tabs.len(),
                    *self == *old(self),
                    ts == old(self)@.0,
                    path_view(path) == Some(p),
                    find_path(ts, p) <= ts.len(),
                    forall|j: int| 0 <= j < find_path(ts, p) ==> #[trigger] ts[j].path != Some(p),
                    find_path(ts, p) < ts.len() ==> ts[find_path(ts, p) as int].path == Some(p),
                    forall|j: int| 0 <= j < i ==> #[trigger] ts[j].path != Some(p),
                decreases n - i,
            {
                if same_path(&self.tabs[i].path, &path) {
                    proof {
                        assert(ts[i as int] == tab_view(self.tabs@[i as int]));
                        if find_path(ts, p) < i {
                            assert(ts[find_path(ts, p) as int].path != Some(p));
                        }
                        if find_path(ts, p) > i {
                            assert(ts[i as int].path != Some(p));
                        }
                    }
                    return i;
                }
                proof {
                    assert(ts[i as int] == tab_view(self.tabs@[i as int]));
                }
                i = i + 1;
            }
            proof {
                if find_path(ts, p) < n {
                    assert(ts[find_path(ts, p) as int].path != Some(p));
                }
            }
        }
        let title = tab_title_for(&path);
        let tab = EditorTab {
            path,
            title,
            content: String::from_str(content),
            dirty: false,
            target_name: String::from_str(target),
        };
        let ghost tv = tab_view(tab);
        self.tabs.push(tab);
        proof {
            let ts2 = self@.0;
            assert(ts2 =~= ts.push(tv));
            assert(ts2.take(n as int) =~= ts);
            if path_view(self.tabs@[n as int].path) is Some {
                let p = tv.path->0;
                lemma_find_path(ts2, p);
                assert forall|j: int| 0 <= j < n implies #[trigger] ts2[j].path != Some(p) by {
                    assert(ts2[j] == ts[j]);
                }
                if find_path(ts2, p) < n {
                    assert(ts2[find_path(ts2, p) as int].path != Some(p));
                }
            }
            if paths_distinct(ts) {
                assert forall|a: int, b: int| 0 <= a < b < ts2.len() && (#[trigger] ts2[a]).path is Some implies ts2[a].path != (#[trigger] ts2[b]).path by {
                    if b == n {
                        assert(ts2[a] == ts[a]);
                        if tv.path is Some {
                            lemma_find_path(ts, tv.path->0);
                        }
                    } else {
                        assert(ts2[a] == ts[a]);
                        assert(ts2[b] == ts[b]);
                    }
                }
            }
        }
        n
    }

    /// Shows tab `idx` when there is one; the result tells whether it did.
    pub fn activate(&mut self, idx: usize) -> (done: bool)
        ensures
            done == (idx < old(self).tabs.len()),
            final(self).tabs@ == old(self).tabs@,
            final(self).active == if done { idx } else { old(self).active },
            old(self).wf() ==> final(self).wf(),
    {
        if idx >= self.tabs.len() {
            return false;
        }
        self.active = idx;
        true
    }

    /// Closes tab `idx` when there is one. The last open tab is not
    /// removed but becomes a fresh untitled tab; otherwise the shown tab
    /// stays the same when another closes (see [`next_active`]). The result
    /// tells whether a tab closed.
    pub fn close_tab_at(&mut self, idx: usize) -> (done: bool)
        ensures
            done == (idx < old(self).tabs.len()),
            !done ==> final(self)@ == old(self)@,
            done && old(self).tabs.len() == 1 ==> final(self)@ == (seq![fresh_tab()], 0nat),
            done && old(self).tabs.len() > 1 ==> final(self)@ == (
                old(self)@.0.remove(idx as int),
                next_active(old(self).active as nat, idx as nat, (old(self).tabs.len() - 1) as nat),
            ),
            old(self).wf() ==> final(self).wf(),
            paths_distinct(old(self)@.0) ==> paths_distinct(final(self)@.0),
    {
        let n = self.tabs.len();
        if n == 0 || idx >= n {
            return false;
        }
        let ghost ts = old(self)@.0;
        if n == 1 {
            self.tabs.set(0, fresh());
            self.active = 0;
            proof {
                assert(self@.0 =~= seq![fresh_tab()]);
            }
            return true;
        }
        let _closed = self.tabs.remove(idx);
        let m = self.tabs.len();
        let next = if self.active > idx {
            self.active - 1
        } else if self.active >= m {
            m - 1
        } else {
            self.active
        };
        self.active = next;
        proof {
            assert(self@.0 =~= ts.remove(idx as int));
            if paths_distinct(ts) {
                let ts2 = self@.0;
                assert forall|a: int, b: int| 0 <= a < b < ts2.len() && (#[trigger] ts2[a]).path is Some implies ts2[a].path != (#[trigger] ts2[b]).path by {
                    let a0 = if a < idx { a } else { a + 1 };
                    let b0 = if b < idx { b } else { b + 1 };
                    assert(ts2[a] == ts[a0]);
                    assert(ts2[b] == ts[b0]);
                }
            }
        }
        true
    }

    /// Marks the shown tab as saved.
    pub fn mark_clean(&mut self)
        ensures
            final(self).active == old(self).active,
            old(self).active < old(self).tabs.len() ==> final(self)@.0 == old(self)@.0.update(
                old(self).active as int,
                (TabV { dirty: false, ..old(self)@.0[old(self).active as int] }),
            ),
            old(self).active >= old(self).tabs.len() ==> final(self)@ == old(self)@,
            old(self).wf() ==> final(self).wf(),
    {
        if self.active < self.tabs.len() {
            let a = self.active;
            self.tabs[a].dirty = false;
            proof {
                assert(self@.0 =~= old(self)@.0.update(a as int, TabV { dirty: false, ..old(self)@.0[a as int] }));
            }
        }
    }

    /// Whether opening `path` leaves the file of the shown tab (so the
    /// editor's text is to be stored into that tab first).
    pub fn switches_file(&self, path: &Option<String>) -> (r: bool)
        ensures
            r == (self.tabs.len() > 0 && (if self.active < self.tabs.len() {
                self@.0[self.active as int].path
            } else {
                None
            }) != path_view(*path)),
    {
        if self.tabs.len() == 0 {
            return false;
        }
        if self.active < self.tabs.len() {
            !same_path(&self.tabs[self.active].path, path)
        } else {
            path.is_some()
        }
    }

    /// Shows `content` as the file at `path`: in its open tab, else in a
    /// new one (see [`EditorTabs::ensure_tab_for_path`]), which then holds
    /// that content and target, saved. Returns the tab's index.
    pub fn set_source(&mut self, path: Option<String>, content: &str, target: &str) -> (r: usize)
        ensures
            final(self).active == r,
            r < final(self).tabs.len(),
            r < old(self).tabs.len() ==> final(self).tabs.len() == old(self).tabs.len(),
            r >= old(self).tabs.len() ==> r == old(self).tabs.len() && final(self).tabs.len() == old(self).tabs.len() + 1,
            forall|j: int| 0 <= j < old(self).tabs.len() && j != r ==> #[trigger] final(self)@.0[j] == old(self)@.0[j],
            final(self)@.0[r as int].path == path_view(path),
            title_for(final(self)@.0[r as int].title, path_view(path)),
            final(self)@.0[r as int].content == content@,
            !final(self)@.0[r as int].dirty,
            final(self)@.0[r as int].target == target@,
            match path_view(path) {
                Some(p) => r == find_path(old(self)@.0, p) || find_path(old(self)@.0, p) == old(self).tabs.len(),
                None => r == old(self).tabs.len(),
            },
            path_view(path) is Some ==> find_path(final(self)@.0, path_view(path)->0) == r,
            paths_distinct(old(self)@.0) ==> paths_distinct(final(self)@.0),
            final(self).wf(),
    {
        let idx = self.ensure_tab_for_path(clone_path(&path), content, target);
        let ghost mid = self@.0;
        self.active = idx;
        let title = tab_title_for(&path);
        self.tabs[idx].content = String::from_str(content);
        self.tabs[idx].path = path;
        self.tabs[idx].title = title;
        self.tabs[idx].target_name = String::from_str(target);
        self.tabs[idx].dirty = false;
        proof {
            let fin = self@.0;
            if path_view(path) is Some {
                lemma_find_path(old(self)@.0, path_view(path)->0);
            }
            assert(fin[idx as int] == tab_view(self.tabs@[idx as int]));
            assert forall|j: int| 0 <= j < mid.len() && j != idx implies #[trigger] fin[j] == mid[j] by {
                assert(fin[j] == tab_view(self.tabs@[j]));
            }
            assert(fin.len() == mid.len());
            assert(fin[idx as int].path == mid[idx as int].path);
            if path_view(path) is Some {
                let p = path_view(path)->0;
                lemma_find_path(fin, p);
                lemma_find_path(mid, p);
                assert forall|j: int| 0 <= j < find_path(mid, p) implies #[trigger] fin[j].path != Some(p) by {
                    assert(mid[j].path != Some(p));
                }
                if find_path(fin, p) < idx {
                    assert(fin[find_path(fin, p) as int] == mid[find_path(fin, p) as int]);
                }
            }
            if paths_distinct(mid) {
                assert forall|a: int, b: int| 0 <= a < b < fin.len() && (#[trigger] fin[a]).path is Some implies fin[a].path != (#[trigger] fin[b]).path by {
                    if a != idx {
                        assert(fin[a] == mid[a]);
                    }
                    if b != idx {
                        assert(fin[b] == mid[b]);
                    }
                }
            }
        }
        idx
    }
}

} // verus!
