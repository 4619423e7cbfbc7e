//! Screenshots, the clipboard, and what the user asks for by menu or mouse.

use vstd::prelude::*;
use vstd::utf8::*;
use crate::ai;
use crate::answers;
use crate::error::StudyError;
use crate::stamp;
use crate::text;

verus! {

/// The name of the file for a screenshot that was taken at the given time.
pub open spec fn capture_name(millis: int) -> Seq<char> {
    "capture-"@ + answers::signed_decimal(millis) + ".png"@
}

/// The name of the file for a screenshot that was taken at the given time.
pub fn capture_file_name_at(millis: i64) -> (r: String)
    ensures
        r@ == capture_name(millis as int),
{
    let mut name = "capture-".to_owned();
    let number = answers::signed_decimal_text(millis);
    name.append(number.as_str());
    name.append(".png");
    name
}

/// The name of the file for a screenshot that is taken now.
pub fn capture_file_name() -> (r: String)
    ensures
        exists|millis: i64| r@ == #[trigger] capture_name(millis as int),
{
    let millis: i64 = stamp::now_millis();
    let r = capture_file_name_at(millis);
    assert(r@ == capture_name(millis as int));
    r
}

/// What taking a screenshot came to: an error where the program failed, and where it
/// left no file.
pub fn capture_to_temp(success: bool, exists: bool) -> (r: Result<(), StudyError>)
    ensures
        r is Ok <==> success && exists,
        r matches Err(e) ==> e == StudyError::CaptureFailed,
{
    if success && exists {
        Ok(())
    } else {
        Err(StudyError::CaptureFailed)
    }
}

/// How often the clipboard is looked at for a screenshot.
pub const CAPTURE_POLLS: u32 = 180;

/// The milliseconds between two looks at the clipboard.
pub const CAPTURE_PAUSE: u64 = 500;

/// What is done to take a screenshot through the clipboard.
#[derive(Debug, Clone, Copy, PartialEq, Eq, Structural)]
pub enum CaptureStage {
    /// Clear the clipboard.
    Clear,
    /// Launch the program that takes screenshots.
    Launch,
    /// Look for an image on the clipboard and save it; so many looks came before.
    Poll(u32),
}

/// What follows.
#[derive(Debug, Clone, Copy, PartialEq, Eq, Structural)]
pub enum CaptureNext {
    /// The next stage, after so many milliseconds.
    Go(CaptureStage, u64),
    /// The image is saved.
    Saved,
    /// The error, after so many milliseconds.
    Fail(StudyError, u64),
}

/// What follows on a stage that came off or did not.
pub open spec fn capture_next(stage: CaptureStage, success: bool) -> CaptureNext {
    match stage {
        CaptureStage::Clear => if success {
            CaptureNext::Go(CaptureStage::Launch, 0)
        } else {
            CaptureNext::Fail(StudyError::ClipboardNotCleared, 0)
        },
        CaptureStage::Launch => if success {
            CaptureNext::Go(CaptureStage::Poll(0), 0)
        } else {
            CaptureNext::Fail(StudyError::SnippingNotLaunched, 0)
        },
        CaptureStage::Poll(n) => if success {
            CaptureNext::Saved
        } else if n + 1 < CAPTURE_POLLS {
            CaptureNext::Go(CaptureStage::Poll((n + 1) as u32), CAPTURE_PAUSE)
        } else {
            CaptureNext::Fail(StudyError::NothingCopied, CAPTURE_PAUSE)
        },
    }
}

/// What follows on a stage that came off or did not.
pub fn capture_to_temp_windows(stage: CaptureStage, success: bool) -> (r: CaptureNext)
    ensures
        r == capture_next(stage, success),
{
    match stage {
        CaptureStage::Clear => {
            if success {
                CaptureNext::Go(CaptureStage::Launch, 0)
            } else {
                CaptureNext::Fail(StudyError::ClipboardNotCleared, 0)
            }
        },
        CaptureStage::Launch => {
            if success {
                CaptureNext::Go(CaptureStage::Poll(0), 0)
            } else {
                CaptureNext::Fail(StudyError::SnippingNotLaunched, 0)
            }
        },
        CaptureStage::Poll(n) => {
            if success {
                CaptureNext::Saved
            } else if n < CAPTURE_POLLS - 1 {
                CaptureNext::Go(CaptureStage::Poll(n + 1), CAPTURE_PAUSE)
            } else {
                CaptureNext::Fail(StudyError::NothingCopied, CAPTURE_PAUSE)
            }
        },
    }
}

/// The place of a stage in the order of stages.
pub open spec fn capture_rank(stage: CaptureStage) -> int {
    match stage {
        CaptureStage::Clear => 0,
        CaptureStage::Launch => 1,
        CaptureStage::Poll(n) => 2 + n,
    }
}

/// Waiting for a screenshot ends: each stage comes later in the order than the one
/// before, and the clipboard is looked at no more than the given number of times. It
/// ends well only with an image that was saved.
pub proof fn capturing_ends(stage: CaptureStage, success: bool)
    ensures
        capture_next(stage, success) matches CaptureNext::Go(next, pause) ==> capture_rank(stage)
            < capture_rank(next) && (next matches CaptureStage::Poll(n) ==> n < CAPTURE_POLLS),
        capture_next(stage, success) is Saved <==> stage is Poll && success,
{
}

/// The path as it stands between quotation marks in a script.
pub open spec fn quoted_path(path: Seq<char>) -> Seq<char> {
    text::replaced(path, "'"@, "''"@)
}

/// Each quotation mark in a text is directly followed by a second one.
pub open spec fn marks_are_paired(s: Seq<char>) -> bool
    decreases s.len(),
{
    if s.len() == 0 {
        true
    } else if s[0] != '\'' {
        marks_are_paired(s.drop_first())
    } else {
        s.len() >= 2 && s[1] == '\'' && marks_are_paired(s.skip(2))
    }
}

/// What a text between quotation marks stands for: one mark for each pair.
pub open spec fn unpaired(s: Seq<char>) -> Seq<char>
    decreases s.len(),
{
    if s.len() == 0 {
        s
    } else if s[0] != '\'' || s.len() == 1 {
        seq![s[0]] + unpaired(s.drop_first())
    } else {
        seq!['\''] + unpaired(s.skip(2))
    }
}

/// No quotation mark of a path ends the text between the marks around it, and that
/// text stands for the path.
pub proof fn quoted_paths_stay_in_their_marks(path: Seq<char>)
    ensures
        marks_are_paired(quoted_path(path)),
        unpaired(quoted_path(path)) == path,
    decreases path.len(),
{
    reveal_strlit("'");
    reveal_strlit("''");
    let one = "'"@;
    let two = "''"@;
    assert(one =~= seq!['\'']);
    assert(two =~= seq!['\'', '\'']);
    text::lemma_index_from(path, one, 0);
    match text::index_of(path, one) {
        None => {
            assert(text::split_on(path, one) =~= seq![path]);
            lemma_no_mark(path, path.len() as int);
            lemma_unmarked_head(path, Seq::empty());
            assert(path + Seq::<char>::empty() =~= path);
        },
        Some(i) => {
            let head = path.take(i);
            let tail = path.skip(i + 1);
            let rest = text::split_on(tail, one);
            quoted_paths_stay_in_their_marks(tail);
            assert((seq![head] + rest).drop_first() =~= rest);
            assert(rest.len() > 0);
            text::lemma_join_front(seq![head] + rest, two);
            let q = quoted_path(tail);
            assert(quoted_path(path) == head + two + q);
            assert(head + two + q =~= head + (two + q));
            assert((two + q).skip(2) =~= q);
            assert(marks_are_paired(two + q));
            lemma_no_mark(path, i);
            lemma_unmarked_head(head, two + q);
            assert(path.subrange(i, i + 1) == one);
            assert(path[i] == one[0]) by {
                assert(path.subrange(i, i + 1)[0] == path[i]);
            }
            assert(path =~= head + (seq!['\''] + tail));
        },
    }
}

/// Before the first quotation mark there is none.
proof fn lemma_no_mark(path: Seq<char>, end: int)
    requires
        0 <= end <= path.len(),
        forall|j: int| 0 <= j < end ==> !text::occurs_at(path, "'"@, j),
    ensures
        forall|j: int| 0 <= j < end ==> #[trigger] path[j] != '\'',
{
    reveal_strlit("'");
    assert forall|j: int| 0 <= j < end implies #[trigger] path[j] != '\'' by {
        if path[j] == '\'' {
            assert(path.subrange(j, j + 1) =~= "'"@);
            assert(text::occurs_at(path, "'"@, j));
        }
    }
}

/// A head without quotation marks changes nothing of how the rest is read.
proof fn lemma_unmarked_head(head: Seq<char>, rest: Seq<char>)
    requires
        forall|j: int| 0 <= j < head.len() ==> #[trigger] head[j] != '\'',
        marks_are_paired(rest),
    ensures
        marks_are_paired(head + rest),
        unpaired(head + rest) == head + unpaired(rest),
    decreases head.len(),
{
    let s = head + rest;
    if head.len() == 0 {
        assert(s =~= rest);
        assert(head + unpaired(rest) =~= unpaired(rest));
    } else {
        let t = head.drop_first();
        assert(s[0] == head[0]);
        assert(s.drop_first() =~= t + rest);
        assert forall|j: int| 0 <= j < t.len() implies #[trigger] t[j] != '\'' by {
            assert(t[j] == head[j + 1]);
        }
        lemma_unmarked_head(t, rest);
        assert(seq![s[0]] + (t + unpaired(rest)) =~= head + unpaired(rest));
    }
}

/// What stands in the script before the path.
pub const SCRIPT_HEAD: &'static str = "$ErrorActionPreference = 'Stop'; Add-Type -AssemblyName System.Windows.Forms; Add-Type -AssemblyName System.Drawing; if ([System.Windows.Forms.Clipboard]::ContainsImage()) { $img = [System.Windows.Forms.Clipboard]::GetImage(); $img.Save('";

/// What stands in the script behind the path.
pub const SCRIPT_TAIL: &'static str = "', [System.Drawing.Imaging.ImageFormat]::Png); Write-Output 'saved'; }";

/// The script that saves an image on the clipboard to a file.
pub fn clipboard_script(path: &str) -> (r: String)
    ensures
        r@ == SCRIPT_HEAD@ + quoted_path(path@) + SCRIPT_TAIL@,
{
    proof {
        reveal_strlit("'");
    }
    let escaped = text::replace_all(path, "'", "''");
    let mut script = SCRIPT_HEAD.to_owned();
    script.append(escaped.as_str());
    script.append(SCRIPT_TAIL);
    script
}

/// Whether the script saved an image, given the text that it gave out.
pub fn image_saved(output: &str, exists: bool) -> (r: bool)
    ensures
        r == (text::contains(output@, "saved"@) && exists),
{
    let c = text::chars_of(output);
    let word = text::chars_of("saved");
    proof {
        text::lemma_index_from(c@, word@, 0);
    }
    let found = text::find_from(&c, &word, 0).is_some();
    proof {
        if found {
            let k = text::index_from(c@, word@, 0)->0;
            assert(text::occurs_at(output@, "saved"@, k));
        } else if text::contains(output@, "saved"@) {
            let k = choose|k: int| text::occurs_at(output@, "saved"@, k);
            assert(!text::occurs_at(c@, word@, k));
        }
    }
    found && exists
}

/// Whether the script saved an image, given what it gave out.
pub fn save_windows_clipboard_image(stdout: &[u8], exists: bool) -> (r: bool)
    ensures
        r == (text::contains(ai::lossy_text(stdout@), "saved"@) && exists),
{
    let output = ai::text_of_output(stdout);
    image_saved(output.as_str(), exists)
}

/// The words for a script that failed, given the text that it gave out about it.
pub fn clipboard_error_text(stderr: &str) -> (r: String)
    ensures
        r@ == "failed to read screenshot from Windows clipboard: "@ + text::trim(stderr@),
{
    let mut r = "failed to read screenshot from Windows clipboard: ".to_owned();
    let detail = text::trimmed(stderr);
    r.append(detail.as_str());
    r
}

/// The text on the clipboard: an error where it could not be read, and where it is
/// blank.
pub open spec fn clipboard_outcome(success: bool, output: Seq<char>) -> Result<
    Seq<char>,
    StudyError,
> {
    if !success {
        Err(StudyError::ClipboardUnreadable)
    } else if text::is_blank(output) {
        Err(StudyError::ClipboardEmpty)
    } else {
        Ok(text::trim(output))
    }
}

/// The text on the clipboard, given the text that the program gave out.
pub fn clipboard_text(success: bool, output: &str) -> (r: Result<String, StudyError>)
    ensures
        r matches Ok(s) ==> clipboard_outcome(success, output@) == Ok::<Seq<char>, StudyError>(s@),
        r matches Err(e) ==> clipboard_outcome(success, output@) == Err::<Seq<char>, StudyError>(e),
{
    if !success {
        return Err(StudyError::ClipboardUnreadable);
    }
    proof {
        text::lemma_blank(output@);
    }
    let trimmed = text::trimmed(output);
    if trimmed.as_str().is_empty() {
        Err(StudyError::ClipboardEmpty)
    } else {
        Ok(trimmed)
    }
}

/// The text on the clipboard, given what the program gave out.
pub fn read_clipboard_text(success: bool, stdout: &[u8]) -> (r: Result<String, StudyError>)
    ensures
        r matches Ok(s) ==> clipboard_outcome(success, ai::lossy_text(stdout@)) == Ok::<
            Seq<char>,
            StudyError,
        >(s@),
        r matches Err(e) ==> clipboard_outcome(success, ai::lossy_text(stdout@)) == Err::<
            Seq<char>,
            StudyError,
        >(e),
        success && valid_utf8(stdout@) && !text::is_blank(decode_utf8(stdout@)) ==> r is Ok,
{
    let output = ai::text_of_output(stdout);
    clipboard_text(success, output.as_str())
}

/// What the user asks for in the menu.
#[derive(Debug, Clone, Copy, PartialEq, Eq, Structural)]
pub enum MenuAction {
    Open,
    Capture,
    Quit,
    Nothing,
}

/// What an entry of the menu stands for.
pub fn menu_action(id: &str) -> (r: MenuAction)
    ensures
        r == (if id@ == "open"@ {
            MenuAction::Open
        } else if id@ == "capture"@ {
            MenuAction::Capture
        } else if id@ == "quit"@ {
            MenuAction::Quit
        } else {
            MenuAction::Nothing
        }),
{
    if text::same_text(id, "open") {
        MenuAction::Open
    } else if text::same_text(id, "capture") {
        MenuAction::Capture
    } else if text::same_text(id, "quit") {
        MenuAction::Quit
    } else {
        MenuAction::Nothing
    }
}

/// What happens to the main window.
#[derive(Debug, Clone, Copy, PartialEq, Eq, Structural)]
pub enum WindowAction {
    Hide,
    Show,
    Nothing,
}

/// What a click on the icon does to the main window: the left button hides it where it
/// can be seen and shows it where it cannot, when it is released.
pub fn tray_click(left: bool, released: bool, visible: bool) -> (r: WindowAction)
    ensures
        r == (if !left || !released {
            WindowAction::Nothing
        } else if visible {
            WindowAction::Hide
        } else {
            WindowAction::Show
        }),
{
    if !left || !released {
        WindowAction::Nothing
    } else if visible {
        WindowAction::Hide
    } else {
        WindowAction::Show
    }
}

/// A screenshot is named by the time at which it was taken.
pub proof fn screenshots_are_named_by_their_time(millis: nat)
    ensures
        capture_name(millis as int) == "capture-"@ + text::decimal(millis) + ".png"@,
{
    answers::signs_are_written(millis);
}

/// Screenshots that were taken at different times have different names.
pub proof fn screenshots_have_names_of_their_own(a: nat, b: nat)
    requires
        capture_name(a as int) == capture_name(b as int),
    ensures
        a == b,
{
    reveal_strlit("capture-");
    reveal_strlit(".png");
    let x = capture_name(a as int);
    let y = capture_name(b as int);
    assert(x.subrange(8, x.len() - 4) =~= text::decimal(a));
    assert(y.subrange(8, y.len() - 4) =~= text::decimal(b));
    text::decimals_read_back(a);
    text::decimals_read_back(b);
}

/// The clipboard is cleared, then the program is launched, and then the clipboard is looked
/// at, 180 times at the most and with half a second after each look; where one of these does
/// not come off for good, its own error is given.
pub proof fn screenshots_are_waited_for(n: u32)
    ensures
        capture_next(CaptureStage::Clear, true) == CaptureNext::Go(CaptureStage::Launch, 0),
        capture_next(CaptureStage::Clear, false) == CaptureNext::Fail(
            StudyError::ClipboardNotCleared,
            0,
        ),
        capture_next(CaptureStage::Launch, true) == CaptureNext::Go(CaptureStage::Poll(0), 0),
        capture_next(CaptureStage::Launch, false) == CaptureNext::Fail(
            StudyError::SnippingNotLaunched,
            0,
        ),
        capture_next(CaptureStage::Poll(n), true) == CaptureNext::Saved,
        n < 179 ==> capture_next(CaptureStage::Poll(n), false) == CaptureNext::Go(
            CaptureStage::Poll((n + 1) as u32),
            500,
        ),
        n >= 179 ==> capture_next(CaptureStage::Poll(n), false) == CaptureNext::Fail(
            StudyError::NothingCopied,
            500,
        ),
{
}

/// The text on the clipboard is given without the white space around it; where there is none,
/// or it could not be read, the error says so.
pub proof fn copied_text_is_trimmed(before: Seq<char>, s: Seq<char>, behind: Seq<char>)
    requires
        text::is_blank(before),
        text::is_blank(behind),
    ensures
        text::is_trimmed(s) && s.len() > 0 ==> clipboard_outcome(true, before + s + behind) == Ok::<
            Seq<char>,
            StudyError,
        >(s),
        clipboard_outcome(true, before) == Err::<Seq<char>, StudyError>(StudyError::ClipboardEmpty),
        clipboard_outcome(false, s) == Err::<Seq<char>, StudyError>(
            StudyError::ClipboardUnreadable,
        ),
{
    text::white_space_around_is_trimmed(before, s, behind);
    text::lemma_blank(before + s + behind);
}

} // verus!
