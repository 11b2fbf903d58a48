//! The script that recovers overlay windows, and what it reports.
use crate::encoding::{base64_standard, encode_standard};
use crate::json::{Json, JsonV, json_parsed, parse_bytes};
use crate::text::{
    cat4, cat5, chars_of, decimal_text, digits, replaced, str_eq, with_replaced, words,
};
use vstd::prelude::*;

verus! {

/// Why a recovery did not come off.
pub open spec fn recovery_reason(code: Seq<char>) -> Seq<char> {
    if code == "no_window"@ {
        "未找到可恢复的 Windows 商店版 Codex 浮窗，请先打开宠物或语音浮窗"@
    } else if code == "ambiguous_window"@ {
        "存在多个候选浮窗，请只保留需要恢复的一个浮窗"@
    } else if code == "input_busy"@ || code == "reset_interrupted"@ {
        "鼠标按键、桌面切换或退出中断了恢复，请松开鼠标后重试"@
    } else if code == "window_changed"@ {
        "浮窗尚未稳定或已重建，请稍后重试"@
    } else if code == "already_running"@ {
        "另一个浮窗恢复程序正在运行，请等待其退出"@
    } else {
        "浮窗恢复未完成或未能确认原始样式已还原，请关闭并重新打开浮窗"@
    }
}

/// What a report comes to. A recovery counts only where it says that it succeeded and that the
/// original style was restored exactly.
pub open spec fn recovery_outcome(report: JsonV) -> Result<Seq<char>, Seq<char>> {
    if report.get_bool("ok"@) == Some(true) && report.get_bool("restoredExactly"@) == Some(true) {
        Ok("已完成浮窗样式恢复，请拖动或点击浮窗确认效果。"@)
    } else {
        Err(
            recovery_reason(report.str_or_empty("code"@)) + "（"@ + (match report.get_str(
                "code"@,
            ) {
                Some(c) => c,
                None => "invalid_result"@,
            }) + "）"@,
        )
    }
}

pub open spec fn words_result(r: Result<String, String>) -> Result<Seq<char>, Seq<char>> {
    match r {
        Ok(s) => Ok(s@),
        Err(e) => Err(e@),
    }
}

fn reason_for(code: &str) -> (r: &'static str)
    ensures
        r@ == recovery_reason(code@),
{
    if str_eq(code, "no_window") {
        "未找到可恢复的 Windows 商店版 Codex 浮窗，请先打开宠物或语音浮窗"
    } else if str_eq(code, "ambiguous_window") {
        "存在多个候选浮窗，请只保留需要恢复的一个浮窗"
    } else if str_eq(code, "input_busy") || str_eq(code, "reset_interrupted") {
        "鼠标按键、桌面切换或退出中断了恢复，请松开鼠标后重试"
    } else if str_eq(code, "window_changed") {
        "浮窗尚未稳定或已重建，请稍后重试"
    } else if str_eq(code, "already_running") {
        "另一个浮窗恢复程序正在运行，请等待其退出"
    } else {
        "浮窗恢复未完成或未能确认原始样式已还原，请关闭并重新打开浮窗"
    }
}

/// Judges a report.
pub fn judge_report(report: &Json) -> (r: Result<String, String>)
    ensures
        words_result(r) == recovery_outcome(report@),
{
    let ok = match report.get_bool("ok") {
        Some(b) => b,
        None => false,
    };
    let exact = match report.get_bool("restoredExactly") {
        Some(b) => b,
        None => false,
    };
    if ok && exact {
        return Ok("已完成浮窗样式恢复，请拖动或点击浮窗确认效果。".to_owned());
    }
    let code = report.str_or_empty("code");
    let shown = match report.get_str("code") {
        Some(c) => c,
        None => "invalid_result",
    };
    Err(cat4(reason_for(code.as_str()), "（", shown, "）"))
}

/// Reads and judges the report of a recovery.
pub fn parse_result(output: &Vec<u8>) -> (r: Result<String, String>)
    ensures
        words_result(r) == match json_parsed(output@) {
            Ok(report) => recovery_outcome(report),
            Err(words) => Err(words),
        },
{
    match parse_bytes(output.as_slice()) {
        Ok(report) => judge_report(&report),
        Err(words) => Err(words),
    }
}

/// Seconds between two recoveries.
pub const RECOVERY_PAUSE: u64 = 10;

/// Whether a recovery may start, so many seconds after the last one started.
pub fn may_recover(since_last: Option<u64>) -> (r: bool)
    ensures
        r == !(since_last matches Some(s) && s < RECOVERY_PAUSE),
{
    match since_last {
        Some(s) => s >= RECOVERY_PAUSE,
        None => true,
    }
}

/// The script that recovers the overlay windows of a process, with the file of its agent, whose
/// name stands between quotes.
pub open spec fn script_text(source: Seq<char>, process_id: u32) -> Seq<char> {
    "$ErrorActionPreference='Stop'; [Console]::OutputEncoding=New-Object System.Text.UTF8Encoding($false); Add-Type -TypeDefinition ([IO.File]::ReadAllText('"@
        + replaced(source, "'"@, "''"@) + "')); [PetWindowAgent]::RecoverOnce("@ + digits(
        process_id as nat,
    ) + ")"@
}

/// The script that recovers the overlay windows of a process, with the file of its agent.
pub fn recovery_script(source: &str, process_id: u32) -> (r: String)
    ensures
        r@ == script_text(source@, process_id),
{
    cat5(
        "$ErrorActionPreference='Stop'; [Console]::OutputEncoding=New-Object System.Text.UTF8Encoding($false); Add-Type -TypeDefinition ([IO.File]::ReadAllText('",
        with_replaced(source, "'", "''").as_str(),
        "')); [PetWindowAgent]::RecoverOnce(",
        decimal_text(process_id as u64).as_str(),
        ")",
    )
}

/// A unit of UTF-16 as two bytes, the low one first.
pub open spec fn unit_bytes(unit: int) -> Seq<u8> {
    seq![(unit % 256) as u8, (unit / 256) as u8]
}

/// A character in UTF-16, the low byte of each unit first.
pub open spec fn utf16_char(c: char) -> Seq<u8> {
    let n = c as int;
    if n < 0x1_0000 {
        unit_bytes(n)
    } else {
        unit_bytes(0xd800 + (n - 0x1_0000) / 0x400) + unit_bytes(0xdc00 + (n - 0x1_0000) % 0x400)
    }
}

/// A text in UTF-16, the low byte of each unit first.
pub open spec fn utf16_bytes(s: Seq<char>) -> Seq<u8>
    decreases s.len(),
{
    if s.len() == 0 {
        Seq::empty()
    } else {
        utf16_bytes(s.drop_last()) + utf16_char(s.last())
    }
}

fn push_unit(out: &mut Vec<u8>, unit: u32)
    requires
        unit <= 0xffff,
    ensures
        final(out)@ == old(out)@ + unit_bytes(unit as int),
{
    let ghost before = out@;
    out.push((unit % 256) as u8);
    out.push((unit / 256) as u8);
    proof {
        assert(out@ =~= before + unit_bytes(unit as int));
    }
}

fn push_utf16(out: &mut Vec<u8>, c: char)
    ensures
        final(out)@ == old(out)@ + utf16_char(c),
{
    let ghost before = out@;
    let n: u32 = c as u32;
    if n < 0x1_0000 {
        push_unit(out, n);
    } else {
        let m: u32 = n - 0x1_0000;
        push_unit(out, 0xd800 + m / 0x400);
        push_unit(out, 0xdc00 + m % 0x400);
    }
    proof {
        assert(out@ =~= before + utf16_char(c));
    }
}

/// A script as PowerShell takes it for an argument.
pub fn encoded_script(script: &str) -> (r: String)
    requires
        (utf16_bytes(script@).len() + 2) / 3 * 4 <= isize::MAX,
    ensures
        r@ == base64_standard(utf16_bytes(script@)),
{
    let chars = chars_of(script);
    let mut out: Vec<u8> = Vec::new();
    let mut i: usize = 0;
    while i < chars.len()
        invariant
            i <= chars.len(),
            chars@ == script@,
            out@ == utf16_bytes(script@.subrange(0, i as int)),
        decreases chars.len() - i,
    {
        proof {
            assert(script@.subrange(0, i + 1).drop_last() =~= script@.subrange(0, i as int));
            assert(script@.subrange(0, i + 1).last() == chars@[i as int]);
        }
        push_utf16(&mut out, chars[i]);
        i = i + 1;
    }
    proof {
        assert(script@.subrange(0, i as int) =~= script@);
    }
    encode_standard(out.as_slice())
}

} // verus!
