use avet::ext::{
    last_output, look, out_of_space, stopped_from_outside, timeout_error, timeout_message,
    tool_error, with_exe_suffix, ToolStep,
};

#[test]
fn a_crashed_tool_is_not_retried_forever() {
    for signal in [6, 11] {
        let err = tool_error("SvtAv1EncApp", Some(signal), "");
        assert!(!err.transient, "signal {signal}: {}", err.message);
    }
    let killed = tool_error("SvtAv1EncApp", Some(9), "");
    assert!(killed.transient, "got: {}", killed.message);
}

#[test]
fn a_full_disk_is_retried_and_an_ordinary_failure_is_not() {
    let full = tool_error("ffmpeg", None, "av_interleaved_write_frame(): No space left on device");
    assert!(full.transient, "got: {}", full.message);
    let quota = tool_error("mkvmerge", None, "Error: Disk quota exceeded");
    assert!(quota.transient, "got: {}", quota.message);

    let broken = tool_error("ffmpeg", None, "Invalid data found when processing input");
    assert!(!broken.transient, "got: {}", broken.message);
}

#[test]
fn a_signalled_tool_is_retried() {
    // How the OOM killer and a Ctrl-C to the process group arrive.
    for signal in [1, 2, 9, 15] {
        assert!(stopped_from_outside(Some(signal)), "signal {signal}");
    }
    assert!(!stopped_from_outside(None));
    assert!(tool_error("mkvmerge", Some(15), "").transient);
}

#[test]
fn what_a_wedged_tool_said_before_the_kill_is_in_the_error() {
    let message = timeout_message("FFVship", 1, "starting\nCannot open display\n\n");
    assert_eq!(
        message,
        "FFVship did not finish within 1s - killed:\nstarting\nCannot open display"
    );
    assert_eq!(last_output(" \n"), "");
    let long: Vec<String> = (0..20).map(|i| format!("line {i}")).collect();
    assert!(last_output(&long.join("\n")).starts_with(":\nline 5\nline 6\n"));
}

#[test]
fn a_binary_gets_the_suffix_of_its_platform() {
    assert_eq!(with_exe_suffix("ffmpeg", ""), "ffmpeg");
    assert_eq!(with_exe_suffix("ffmpeg", ".exe"), "ffmpeg.exe");
    assert!(out_of_space("write: No space left on device"));
    assert!(!out_of_space("write: Input/output error"));
}

#[test]
fn a_tool_is_killed_only_when_its_time_is_up() {
    assert_eq!(look(false, false), ToolStep::Wait);
    assert_eq!(look(false, true), ToolStep::Kill);
    assert_eq!(look(true, false), ToolStep::Done);
    assert_eq!(look(true, true), ToolStep::Done);

    let error = timeout_error("ffprobe", 120, "");
    assert!(error.transient);
    assert_eq!(error.message, "ffprobe did not finish within 120s - killed");
}
