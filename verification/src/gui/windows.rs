//! The state of the user interface's windows and dialogs.
use vstd::prelude::*;

use crate::collection;
use crate::entry;
use crate::gui::autocomplete::AcState;
use crate::preferences::App;
use crate::sequence;
use crate::tag;
use crate::util::path::{extension_of, path_extension};
use crate::util::position::{first_where, lemma_first_where, lemma_first_where_unique};
use crate::util::string::{all_digits, decimal, digit_char, digits_value, is_digit, parsed_usize, push_decimal};

verus! {

/// The window that shows the debug log.
pub struct DebugWindow {
    pub open: bool,
    pub auto_scroll: bool,
    pub max_entries: usize,
}

impl Default for DebugWindow {
    fn default() -> (r: Self)
        ensures
            !r.open,
            r.auto_scroll,
            r.max_entries == 1000,
    {
        DebugWindow { open: false, auto_scroll: true, max_entries: 1000 }
    }
}

impl DebugWindow {
    pub fn toggle(&mut self)
        ensures
            final(self).open == !old(self).open,
            final(self).auto_scroll == old(self).auto_scroll,
            final(self).max_entries == old(self).max_entries,
    {
        self.open = !self.open;
    }

    /// Drops the oldest lines of `log` until at most `max_entries` are left.
    pub fn trim_log(&self, log: &mut Vec<String>)
        ensures
            final(log)@ == if old(log)@.len() > self.max_entries {
                old(log)@.skip(old(log)@.len() - self.max_entries)
            } else {
                old(log)@
            },
    {
        if log.len() > self.max_entries {
            let overflow = log.len() - self.max_entries;
            let mut kept: Vec<String> = Vec::new();
            let mut i: usize = overflow;
            while i < log.len()
                invariant
                    overflow <= i <= log@.len(),
                    kept@ == log@.subrange(overflow as int, i as int),
                decreases log@.len() - i,
            {
                kept.push(log[i].clone());
                i = i + 1;
                proof {
                    assert(kept@ =~= log@.subrange(overflow as int, i as int));
                }
            }
            proof {
                assert(kept@ =~= log@.skip(overflow as int));
            }
            *log = kept;
        }
    }
}

/// The parts of the preferences window.
#[derive(Clone, Copy, PartialEq, Eq, Structural, Debug)]
pub enum Category {
    Ui,
    Startup,
    FileAssoc,
    ColorTheme,
}

/// The preferences window.
pub struct PreferencesWindow {
    pub on: bool,
    pub category: Category,
    pub new_app: App,
    pub new_app_path_string: String,
    pub path_scratch_buffer: String,
    pub new_ext_buffer: String,
}

impl Default for PreferencesWindow {
    fn default() -> (r: Self)
        ensures
            !r.on,
            r.category == Category::Ui,
            r.new_app.name@.len() == 0 && r.new_app.path@.len() == 0 && r.new_app.args_string@.len()
                == 0,
            r.new_app_path_string@.len() == 0,
            r.path_scratch_buffer@.len() == 0,
            r.new_ext_buffer@.len() == 0,
    {
        PreferencesWindow {
            on: false,
            category: Category::Ui,
            new_app: App::default(),
            new_app_path_string: String::new(),
            path_scratch_buffer: String::new(),
            new_ext_buffer: String::new(),
        }
    }
}

impl PreferencesWindow {
    pub fn toggle(&mut self)
        ensures
            final(self).on == !old(self).on,
            final(self).category == old(self).category,
            final(self).new_app == old(self).new_app,
            final(self).new_app_path_string == old(self).new_app_path_string,
            final(self).path_scratch_buffer == old(self).path_scratch_buffer,
            final(self).new_ext_buffer == old(self).new_ext_buffer,
    {
        self.on = !self.on;
    }
}

/// What a prompt asks the user to confirm.
#[derive(Clone, Debug)]
pub enum PromptAction {
    QuitNoSave,
    DeleteTags(Vec<tag::Id>),
    MergeTag { merge: tag::Id, into: tag::Id },
    PanicTest,
}

/// What a modal dialog shows.
pub enum ModalPayload {
    /// An error message; `show_bt` tells whether its details are unfolded.
    Error { message: String, show_bt: bool },
    Success(String),
    About,
    Keybinds,
    Prompt { title: String, message: String, action: PromptAction },
}

/// A modal dialog, shown while it has a payload.
pub struct ModalDialog {
    pub payload: Option<ModalPayload>,
}

impl Default for ModalDialog {
    fn default() -> (r: Self)
        ensures
            r.payload is None,
    {
        ModalDialog { payload: None }
    }
}

impl ModalDialog {
    /// Shows `body` as an error, details folded.
    pub fn err(&mut self, body: String)
        ensures
            final(self).payload == Some(ModalPayload::Error { message: body, show_bt: false }),
    {
        self.payload = Some(ModalPayload::Error { message: body, show_bt: false });
    }

    pub fn about(&mut self)
        ensures
            final(self).payload == Some(ModalPayload::About),
    {
        self.payload = Some(ModalPayload::About);
    }

    pub fn keybinds(&mut self)
        ensures
            final(self).payload == Some(ModalPayload::Keybinds),
    {
        self.payload = Some(ModalPayload::Keybinds);
    }

    pub fn success(&mut self, msg: String)
        ensures
            final(self).payload == Some(ModalPayload::Success(msg)),
    {
        self.payload = Some(ModalPayload::Success(msg));
    }

    /// Asks the user to confirm `action`.
    pub fn prompt(&mut self, title: String, message: String, action: PromptAction)
        ensures
            final(self).payload == Some(ModalPayload::Prompt { title, message, action }),
    {
        self.payload = Some(ModalPayload::Prompt { title, message, action });
    }

    /// Closes the dialog.
    pub fn close(&mut self)
        ensures
            final(self).payload is None,
    {
        self.payload = None;
    }

    /// One frame of the user's answer to the dialog: `confirm` is its Ok (or Close)
    /// button or Enter, `dismiss` its Cancel button or Escape. Either closes the dialog;
    /// a confirmed prompt hands back its action. Without an answer nothing changes.
    pub fn respond(&mut self, confirm: bool, dismiss: bool) -> (r: Option<PromptAction>)
        ensures
            !(confirm || dismiss) ==> r is None && final(self).payload == old(self).payload,
            (confirm || dismiss) ==> final(self).payload is None,
            (confirm || dismiss) ==> r == match old(self).payload {
                Some(ModalPayload::Prompt { action, .. }) => if confirm {
                    Some(action)
                } else {
                    None
                },
                _ => None,
            },
    {
        if !(confirm || dismiss) {
            return None;
        }
        let payload = self.payload.take();
        match payload {
            Some(ModalPayload::Prompt { action, .. }) => {
                if confirm {
                    Some(action)
                } else {
                    None
                }
            },
            _ => None,
        }
    }
}

/// The small window in the corner where filter and search queries are typed.
pub struct QueryPopup {
    pub on: bool,
    pub string: String,
    pub err_string: String,
    pub ac_state: AcState,
}

impl Default for QueryPopup {
    fn default() -> (r: Self)
        ensures
            !r.on,
            r.string@.len() == 0,
            r.err_string@.len() == 0,
            r.ac_state == AcState::initial(),
    {
        QueryPopup {
            on: false,
            string: String::new(),
            err_string: String::new(),
            ac_state: AcState::default(),
        }
    }
}

/// The window of one sequence.
pub struct SequenceWindow {
    pub uid: sequence::Id,
    /// The entry to bring into view, if any.
    pub focus_req: Option<entry::Id>,
}

impl SequenceWindow {
    pub fn new(uid: sequence::Id, focus_req: Option<entry::Id>) -> (r: Self)
        ensures
            r.uid == uid,
            r.focus_req == focus_req,
    {
        SequenceWindow { uid, focus_req }
    }
}

/// The window that lists the sequences.
pub struct SequencesWindow {
    pub on: bool,
    pub add_new: bool,
    pub add_new_buffer: String,
    /// When this is on, we can pick out a sequence and return its id
    pub pick_mode: bool,
    pub pick_result: Option<sequence::Id>,
    pub filter_string: String,
}

impl Default for SequencesWindow {
    fn default() -> (r: Self)
        ensures
            !r.on && !r.add_new && !r.pick_mode,
            r.add_new_buffer@.len() == 0,
            r.pick_result is None,
            r.filter_string@.len() == 0,
    {
        SequencesWindow {
            on: false,
            add_new: false,
            add_new_buffer: String::new(),
            pick_mode: false,
            pick_result: None,
            filter_string: String::new(),
        }
    }
}

/// The text fields for a new tag-to-application binding.
pub struct AddBuf {
    pub tag: String,
    pub app: String,
}

impl Default for AddBuf {
    fn default() -> (r: Self)
        ensures
            r.tag@.len() == 0,
            r.app@.len() == 0,
    {
        AddBuf { tag: String::new(), app: String::new() }
    }
}

/// The window that binds tags to applications.
pub struct TagSpecificAppsWindow {
    pub open: bool,
    pub add_buf: AddBuf,
}

impl Default for TagSpecificAppsWindow {
    fn default() -> (r: Self)
        ensures
            !r.open,
            r.add_buf.tag@.len() == 0 && r.add_buf.app@.len() == 0,
    {
        TagSpecificAppsWindow { open: false, add_buf: AddBuf::default() }
    }
}

/// The tabs of the collection preferences window.
#[derive(Clone, Copy, PartialEq, Eq, Structural, Debug)]
pub enum Tab {
    TagSpecificApps,
    IgnoredExts,
}

/// The collection preferences window.
pub struct CollPrefsWindow {
    pub open: bool,
    pub add_buf: AddBuf,
    pub tab: Tab,
    pub ac_state: AcState,
    pub ac_closed: bool,
}

impl Default for CollPrefsWindow {
    fn default() -> (r: Self)
        ensures
            !r.open && !r.ac_closed,
            r.add_buf.tag@.len() == 0 && r.add_buf.app@.len() == 0,
            r.tab == Tab::TagSpecificApps,
            r.ac_state == AcState::initial(),
    {
        CollPrefsWindow {
            open: false,
            add_buf: AddBuf::default(),
            tab: Tab::TagSpecificApps,
            ac_state: AcState::default(),
            ac_closed: false,
        }
    }
}

/// The window that edits the database of collections.
pub struct CollectionsDbWindow {
    pub open: bool,
    pub path_assign_id: Option<collection::Id>,
}

impl Default for CollectionsDbWindow {
    fn default() -> (r: Self)
        ensures
            !r.open,
            r.path_assign_id is None,
    {
        CollectionsDbWindow { open: false, path_assign_id: None }
    }
}

/// The batch rename window: the entries to rename, in the order they get their numbers.
pub struct BatchRenameWindow {
    pub open: bool,
    pub ids: Vec<entry::Id>,
    pub sel_idx: Option<usize>,
    pub prefix: String,
}

impl Default for BatchRenameWindow {
    fn default() -> (r: Self)
        ensures
            !r.open,
            r.ids@.len() == 0,
            r.sel_idx is None,
            r.prefix@.len() == 0,
    {
        BatchRenameWindow { open: false, ids: Vec::new(), sel_idx: None, prefix: String::new() }
    }
}

impl BatchRenameWindow {
    /// A click (without modifiers) on the entry at position `i`: with no entry picked, it
    /// picks this one; with one picked, the two swap places and the pick is dropped.
    pub fn click(&mut self, i: usize)
        requires
            i < old(self).ids@.len(),
            old(self).sel_idx matches Some(s) ==> s < old(self).ids@.len(),
        ensures
            match old(self).sel_idx {
                Some(s) => final(self).ids@ == old(self).ids@.update(s as int, old(self).ids@[i as int]).update(
                    i as int,
                    old(self).ids@[s as int],
                ) && final(self).sel_idx is None,
                None => final(self).ids@ == old(self).ids@ && final(self).sel_idx == Some(i),
            },
            final(self).open == old(self).open,
            final(self).prefix == old(self).prefix,
    {
        match self.sel_idx {
            Some(idx) => {
                let a = self.ids[idx];
                let b = self.ids[i];
                self.ids.set(idx, b);
                self.ids.set(i, a);
                self.sel_idx = None;
            },
            None => {
                self.sel_idx = Some(i);
            },
        }
    }

    /// A secondary click on the entry at position `i`: the picked entry, if any, moves to
    /// position `i`, and the pick is dropped.
    pub fn secondary_click(&mut self, i: usize)
        requires
            i < old(self).ids@.len(),
            old(self).sel_idx matches Some(s) ==> s < old(self).ids@.len(),
        ensures
            match old(self).sel_idx {
                Some(s) => final(self).ids@ == old(self).ids@.remove(s as int).insert(
                    i as int,
                    old(self).ids@[s as int],
                ) && final(self).sel_idx is None,
                None => final(self).ids@ == old(self).ids@ && final(self).sel_idx is None,
            },
            final(self).open == old(self).open,
            final(self).prefix == old(self).prefix,
    {
        match self.sel_idx {
            Some(idx) => {
                let id = self.ids.remove(idx);
                self.ids.insert(i, id);
                self.sel_idx = None;
            },
            None => {},
        }
    }
}

/// Why a batch rename cannot go ahead.
#[derive(Debug)]
pub enum BatchRenameError {
    /// The id names no entry.
    DanglingEntry(entry::Id),
    /// The entry's file name has no extension.
    NoExtension(entry::Id),
}

/// The decimal digits of `n`, with zeros in front up to four digits.
pub open spec fn padded4(n: nat) -> Seq<char> {
    let d = decimal(n);
    if d.len() < 4 {
        Seq::new((4 - d.len()) as nat, |i: int| '0') + d
    } else {
        d
    }
}

/// The new name of the `i`-th file (counting from 0) with extension `ext`:
/// the prefix, `i` in (at least) four digits, a dot, and the extension.
pub open spec fn batch_name(prefix: Seq<char>, i: nat, ext: Seq<char>) -> Seq<char> {
    prefix + padded4(i) + seq!['.'] + ext
}

/// A digit character stands for its value.
proof fn lemma_digit_char(d: nat)
    requires
        d < 10,
    ensures
        is_digit(digit_char(d)),
        ((digit_char(d) as u32) - ('0' as u32)) as nat == d,
{
}

/// The decimal digits of `n` are digits, and read back as `n`.
proof fn lemma_decimal_reads_back(n: nat)
    ensures
        all_digits(decimal(n)),
        digits_value(decimal(n)) == n,
        decimal(n).len() > 0,
    decreases n,
{
    if n < 10 {
        lemma_digit_char(n);
        let d = decimal(n);
        assert(d.drop_last() =~= Seq::<char>::empty());
        assert(digits_value(d.drop_last()) == 0);
        assert(d.last() == digit_char(n));
        assert(digits_value(d) == digits_value(d.drop_last()) * 10 + ((d.last() as u32) - ('0' as u32)) as nat);
    } else {
        lemma_decimal_reads_back(n / 10);
        lemma_digit_char(n % 10);
        let d = decimal(n);
        assert(d.drop_last() =~= decimal(n / 10));
        assert(d.last() == digit_char(n % 10));
        assert(digits_value(d) == digits_value(d.drop_last()) * 10 + ((d.last() as u32) - ('0' as u32)) as nat);
        assert((n / 10) * 10 + n % 10 == n) by (nonlinear_arith);
        assert forall|i: int| 0 <= i < d.len() implies is_digit(#[trigger] d[i]) by {
            if i < d.len() - 1 {
                assert(d[i] == decimal(n / 10)[i]);
            }
        }
    }
}

/// Leading zeros add nothing to the value of a run of digits.
proof fn lemma_leading_zeros(k: nat, s: Seq<char>)
    ensures
        digits_value(Seq::new(k, |i: int| '0') + s) == digits_value(s),
    decreases s.len(), k,
{
    let z = Seq::new(k, |i: int| '0');
    if s.len() == 0 {
        assert(z + s =~= z);
        if k > 0 {
            lemma_leading_zeros((k - 1) as nat, s);
            assert(z.drop_last() =~= Seq::new((k - 1) as nat, |i: int| '0') + s);
        }
    } else {
        lemma_leading_zeros(k, s.drop_last());
        assert((z + s).drop_last() =~= z + s.drop_last());
        assert((z + s).last() == s.last());
    }
}

/// The number in a batch name reads back as its index: `padded4(n)` has at least four
/// characters, all digits, and its value, as `str::parse` reads it, is `n`.
pub proof fn law_padded4_reads_back(n: nat)
    ensures
        padded4(n).len() >= 4,
        all_digits(padded4(n)),
        digits_value(padded4(n)) == n,
        n <= usize::MAX ==> parsed_usize(padded4(n)) == Some(n),
{
    lemma_decimal_reads_back(n);
    let d = decimal(n);
    if d.len() < 4 {
        let k = (4 - d.len()) as nat;
        lemma_leading_zeros(k, d);
        let p = Seq::new(k, |i: int| '0') + d;
        assert forall|i: int| 0 <= i < p.len() implies is_digit(#[trigger] p[i]) by {
            if i >= k {
                assert(p[i] == d[i - k]);
            }
        }
    }
    assert(padded4(n)[0] != '+') by {
        assert(is_digit(padded4(n)[0]));
    }
}

/// Batch names for different positions differ, whatever the extensions: the number in
/// the name tells the position.
pub proof fn law_batch_names_distinct(prefix: Seq<char>, i: nat, j: nat, e1: Seq<char>, e2: Seq<char>)
    requires
        batch_name(prefix, i, e1) == batch_name(prefix, j, e2),
    ensures
        i == j,
        e1 == e2,
{
    law_padded4_reads_back(i);
    law_padded4_reads_back(j);
    let a = padded4(i);
    let b = padded4(j);
    let s1 = batch_name(prefix, i, e1);
    let s2 = batch_name(prefix, j, e2);
    let pl = prefix.len() as int;
    assert forall|k: int| 0 <= k < a.len() implies s1[pl + k] == #[trigger] a[k] by {}
    assert forall|k: int| 0 <= k < b.len() implies s2[pl + k] == #[trigger] b[k] by {}
    assert(s1[pl + a.len()] == '.');
    assert(s2[pl + b.len()] == '.');
    if a.len() < b.len() {
        assert(is_digit(b[a.len() as int]));
        assert(s2[pl + a.len()] == b[a.len() as int]);
    } else if b.len() < a.len() {
        assert(is_digit(a[b.len() as int]));
        assert(s1[pl + b.len()] == a[b.len() as int]);
    }
    assert(a.len() == b.len());
    assert(a =~= b) by {
        assert forall|k: int| 0 <= k < a.len() implies a[k] == b[k] by {
            assert(s1[pl + k] == a[k]);
            assert(s2[pl + k] == b[k]);
        }
    }
    assert(e1 =~= s1.skip(pl + a.len() + 1));
    assert(e2 =~= s2.skip(pl + b.len() + 1));
}

/// Whether the entry `id` exists and its file has an extension.
pub open spec fn renamable(id: entry::Id, coll: collection::Collection) -> bool {
    coll.entries@.dom().contains(id.0) && extension_of(coll.entries@[id.0].path@) is Some
}

/// Appends `n` in (at least) four digits to `s`.
fn push_padded4(s: &mut String, n: u64)
    ensures
        final(s)@ == old(s)@ + padded4(n as nat),
{
    let mut digits = String::new();
    push_decimal(&mut digits, n);
    let len = digits.as_str().unicode_len();
    if len < 4 {
        let mut k: usize = 0;
        while k < 4 - len
            invariant
                len < 4,
                k <= 4 - len,
                s@ == old(s)@ + Seq::new(k as nat, |i: int| '0'),
            decreases 4 - len - k,
        {
            crate::util::string::push_char(s, '0');
            k = k + 1;
            proof {
                assert(s@ =~= old(s)@ + Seq::new(k as nat, |i: int| '0'));
            }
        }
    }
    s.append(digits.as_str());
    proof {
        assert(s@ =~= old(s)@ + padded4(n as nat));
    }
}

/// The new names for a batch rename of `ids`, in order (see `batch_name`). Fails on the
/// first id that names no entry, or whose file has no extension.
pub fn batch_rename_names(ids: &[entry::Id], coll: &collection::Collection, prefix: &str) -> (r: Result<
    Vec<String>,
    BatchRenameError,
>)
    requires
        coll.wf(),
    ensures
        ({
            let f = first_where(ids@, |id: entry::Id| !renamable(id, *coll));
            match r {
                Ok(names) => f < 0 && names@.len() == ids@.len() && forall|t: int|
                    0 <= t < ids@.len() ==> (#[trigger] names@[t])@ == batch_name(
                        prefix@,
                        t as nat,
                        extension_of(coll.entries@[ids@[t].0].path@)->0,
                    ),
                Err(BatchRenameError::DanglingEntry(id)) => f >= 0 && id == ids@[f]
                    && !coll.entries@.dom().contains(id.0),
                Err(BatchRenameError::NoExtension(id)) => f >= 0 && id == ids@[f]
                    && coll.entries@.dom().contains(id.0),
            }
        }),
{
    let ghost pred = |id: entry::Id| !renamable(id, *coll);
    proof {
        lemma_first_where(ids@, pred);
    }
    let mut names: Vec<String> = Vec::new();
    let mut i: usize = 0;
    while i < ids.len()
        invariant
            i <= ids@.len(),
            coll.wf(),
            pred == (|id: entry::Id| !renamable(id, *coll)),
            forall|j: int| 0 <= j < i ==> !pred(#[trigger] ids@[j]),
            names@.len() == i,
            forall|t: int|
                0 <= t < i ==> (#[trigger] names@[t])@ == batch_name(
                    prefix@,
                    t as nat,
                    extension_of(coll.entries@[ids@[t].0].path@)->0,
                ),
        decreases ids@.len() - i,
    {
        let id = ids[i];
        let en = match coll.entries.get(id.0) {
            Some(en) => en,
            None => {
                proof {
                    lemma_first_where_unique(ids@, pred, i as int);
                }
                return Err(BatchRenameError::DanglingEntry(id));
            },
        };
        let ext = match path_extension(en.path.as_str()) {
            Some(ext) => ext,
            None => {
                proof {
                    lemma_first_where_unique(ids@, pred, i as int);
                }
                return Err(BatchRenameError::NoExtension(id));
            },
        };
        let mut name = String::new();
        name.append(prefix);
        push_padded4(&mut name, i as u64);
        name.append(".");
        name.append(ext.as_str());
        proof {
            reveal_strlit(".");
            assert(name@ =~= batch_name(prefix@, i as nat, extension_of(coll.entries@[ids@[i as int].0].path@)->0));
        }
        names.push(name);
        i = i + 1;
    }
    proof {
        let f = first_where(ids@, pred);
        if f >= 0 {
            assert(!pred(ids@[f]));
        }
    }
    Ok(names)
}

/// Whether `c` is a control character (`char::is_control`: the Unicode category Cc).
pub open spec fn is_control(c: char) -> bool {
    (c as u32) < 0x20 || (0x7f <= (c as u32) && (c as u32) < 0xa0)
}

/// A one-line text field for naming a new tag.
pub struct LineEdit {
    pub text: String,
}

impl LineEdit {
    pub fn new() -> (r: Self)
        ensures
            r.text@.len() == 0,
    {
        LineEdit { text: String::new() }
    }

    /// A typed character goes at the end, unless it is a control character.
    pub fn type_char(&mut self, c: char)
        ensures
            final(self).text@ == if is_control(c) {
                old(self).text@
            } else {
                old(self).text@.push(c)
            },
    {
        let code = c as u32;
        if !(code < 0x20 || (0x7f <= code && code < 0xa0)) {
            crate::util::string::push_char(&mut self.text, c);
        }
    }

    /// Backspace takes the last character off.
    pub fn backspace(&mut self)
        ensures
            final(self).text@ == if old(self).text@.len() > 0 {
                old(self).text@.drop_last()
            } else {
                old(self).text@
            },
    {
        let n = self.text.as_str().unicode_len();
        if n > 0 {
            let shorter = crate::util::string::remove_char_at(self.text.as_str(), n - 1);
            proof {
                assert(old(self).text@.remove(n - 1) =~= old(self).text@.drop_last());
            }
            self.text = shorter;
        }
    }

    /// Return adds a tag whose one name is the text.
    pub fn submit(&self, coll: &mut collection::Collection, uid_counter: &mut crate::db::UidCounter) -> (r: tag::Id)
        requires
            old(coll).wf(),
            old(coll).tag_uids_below(old(uid_counter).value()),
            old(uid_counter).value() < u64::MAX,
        ensures
            final(coll).wf(),
            final(coll).tag_uids_below(final(uid_counter).value()),
            old(coll).uids_below(old(uid_counter).value()) ==> final(coll).uids_below(final(uid_counter).value()),
            r.0 == old(uid_counter).value(),
            final(uid_counter).value() == old(uid_counter).value() + 1,
            final(coll).tags@.dom() == old(coll).tags@.dom().insert(r.0),
            final(coll).tags@[r.0].names@.len() == 1,
            final(coll).tags@[r.0].names@[0] == self.text,
            final(coll).tags@[r.0].implies@.is_empty(),
            forall|k: u64| #[trigger] old(coll).tags@.dom().contains(k) ==> final(coll).tags@[k] == old(coll).tags@[k],
            final(coll).entries == old(coll).entries,
            final(coll).sequences == old(coll).sequences,
    {
        let mut names: Vec<String> = Vec::new();
        names.push(self.text.clone());
        let t = tag::Tag { names, implies: crate::db::TagSet::new() };
        coll.add_new_tag(t, uid_counter)
    }
}

} // verus!
