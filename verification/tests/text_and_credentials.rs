use aram_helper::connection::{bottom_right_position, LcuConnection};
use aram_helper::credentials::{
    credentials_from_output, detection_failure, detection_sources, executable_path_from_listing,
    extract_port_token, labeled_failure, parse_lockfile, process_path_from_output, trim_start_matches,
    CommandSource, CredentialSource,
};
use aram_helper::error::LcuError;
use aram_helper::text::{i64_to_decimal, lines_of, split_text, trim, u64_to_decimal};

const COMMAND_LINE: &str = "CommandLine=\"C:/Riot Games/League of Legends/LeagueClientUx.exe\" \
--riotclient-auth-token=xyz --riotclient-app-port=51234 --app-port=59823 \
--remoting-auth-token=Ab-c_9Zq12 --app-pid=4242";

#[test]
fn decimal_rendering() {
    assert_eq!(u64_to_decimal(0), "0");
    assert_eq!(u64_to_decimal(7), "7");
    assert_eq!(u64_to_decimal(1234), "1234");
    assert_eq!(u64_to_decimal(u64::MAX), u64::MAX.to_string());
    assert_eq!(i64_to_decimal(-42), "-42");
    assert_eq!(i64_to_decimal(0), "0");
    assert_eq!(i64_to_decimal(i64::MIN), i64::MIN.to_string());
    assert_eq!(i64_to_decimal(i64::MAX), i64::MAX.to_string());
}

#[test]
fn trimming_matches_std() {
    for s in ["", "   ", " a b ", "\t\r\nx\n", "\u{3000}全角\u{3000}", "abc"] {
        assert_eq!(trim(s), s.trim());
        assert_eq!(trim(&trim(s)), trim(s));
    }
}

#[test]
fn splitting_and_lines_match_std() {
    for s in ["", "a", "a:b", ":a::b:", "LeagueClient:1234:59823:tok:https"] {
        let expected: Vec<String> = s.split(':').map(String::from).collect();
        assert_eq!(split_text(s, ':'), expected);
    }
    for s in ["", "a", "a\n", "a\r\nb", "\n\nx\r", "x\r\n\r\ny\n"] {
        let expected: Vec<String> = s.lines().map(String::from).collect();
        assert_eq!(lines_of(s), expected);
    }
}

#[test]
fn port_and_token_from_command_line() {
    let (port, token) = extract_port_token(COMMAND_LINE).expect("both present");
    assert_eq!(port, "59823");
    assert_eq!(token, "Ab-c_9Zq12");
}

#[test]
fn port_and_token_need_both_values() {
    assert!(extract_port_token("--app-port=123").is_none());
    assert!(extract_port_token("--remoting-auth-token=abc").is_none());
    assert!(extract_port_token("--app-port= --remoting-auth-token=abc").is_none());
    assert!(extract_port_token("--app-port=1 --remoting-auth-token=").is_none());
    let (port, token) = extract_port_token("--remoting-auth-token=tok\"--app-port=80x").unwrap();
    assert_eq!(port, "80");
    assert_eq!(token, "tok");
}

#[test]
fn command_output_errors() {
    match credentials_from_output("  \r\n ", CommandSource::Wmic) {
        Err(m) => assert_eq!(m, "wmic: 未找到 LeagueClientUx.exe"),
        Ok(_) => panic!("blank output"),
    }
    match credentials_from_output("CommandLine=foo.exe", CommandSource::PowerShell) {
        Err(m) => assert_eq!(m, "PowerShell: 命令行中未找到 port/token"),
        Ok(_) => panic!("no credentials"),
    }
    let found = credentials_from_output(COMMAND_LINE, CommandSource::PowerShell).unwrap();
    assert_eq!(found, ("59823".to_string(), "Ab-c_9Zq12".to_string()));
}

#[test]
fn executable_path_in_listing() {
    let listing = "\r\n\r\nExecutablePath=C:\\Riot Games\\League of Legends\\LeagueClientUx.exe\r\n\r\n";
    assert_eq!(
        executable_path_from_listing(listing),
        "C:\\Riot Games\\League of Legends\\LeagueClientUx.exe"
    );
    assert_eq!(executable_path_from_listing("Name=x\nOther=y\n"), "");
    assert_eq!(executable_path_from_listing("ExecutablePath=ExecutablePath= D:\\a.exe "), "D:\\a.exe");
    assert_eq!(trim_start_matches("abababc", "ab"), "c");
}

#[test]
fn process_path_output() {
    assert_eq!(process_path_from_output("  D:\\League\\LeagueClientUx.exe\r\n").unwrap(), "D:\\League\\LeagueClientUx.exe");
    assert_eq!(process_path_from_output(" \n").unwrap_err(), "无法获取 LeagueClientUx 进程路径");
}

#[test]
fn lockfile_fields() {
    let (port, token) = parse_lockfile("LeagueClient:12345:59823:s3cr3t:https\n").unwrap();
    assert_eq!(port, "59823");
    assert_eq!(token, "s3cr3t");
    assert_eq!(parse_lockfile("a:b:c").unwrap_err(), "lockfile 格式异常: a:b:c");
    let fields = ["LeagueClient", "9", "443", "tok-en", "https", "extra"];
    let (port, token) = parse_lockfile(&fields.join(":")).unwrap();
    assert_eq!((port.as_str(), token.as_str()), (fields[2], fields[3]));
}

#[test]
fn detection_report() {
    let sources = detection_sources();
    assert!(matches!(
        sources.as_slice(),
        [CredentialSource::Wmic, CredentialSource::PowerShell, CredentialSource::Lockfile]
    ));
    let lines = vec![
        labeled_failure(&CredentialSource::Wmic, "wmic: 未找到 LeagueClientUx.exe"),
        labeled_failure(&CredentialSource::PowerShell, "x"),
        labeled_failure(&CredentialSource::Lockfile, "y"),
    ];
    let error = detection_failure(&lines);
    assert_eq!(
        error.message(),
        "所有检测方式均失败:\nwmic: wmic: 未找到 LeagueClientUx.exe\npowershell: x\nlockfile: y"
    );
    assert!(matches!(detection_failure(&Vec::new()), LcuError::Detection(m) if m == "所有检测方式均失败:\n"));
}

#[test]
fn connection_requests() {
    let conn = LcuConnection::from_credentials("59823".to_string(), "abc");
    assert_eq!(conn.auth(), "cmlvdDphYmM=");
    assert_eq!(conn.port(), "59823");
    assert_eq!(conn.api_url("/lol-chat/v1/friends"), "https://127.0.0.1:59823/lol-chat/v1/friends");
    assert_eq!(conn.authorization(), "Basic cmlvdDphYmM=");
}

#[test]
fn window_in_bottom_right_corner() {
    assert_eq!(bottom_right_position(1920, 1080, 380, 560), (1524, 472));
    assert_eq!(bottom_right_position(300, 500, 380, 560), (0, 0));
    assert_eq!(bottom_right_position(u32::MAX, 100, 0, 0), (-17, 52));
}

#[test]
fn error_messages() {
    assert_eq!(LcuError::UnsupportedPlatform.message(), "仅支持 Windows 系统");
    assert_eq!(LcuError::MissingPuuid.message(), "无法获取 PUUID");
    assert_eq!(LcuError::NoRecentGame.message(), "没有找到最近的对局记录");
    assert_eq!(LcuError::MissingParticipants.message(), "对局详情中没有参与者数据");
    assert_eq!(LcuError::MissingIdentities.message(), "对局详情中没有玩家身份数据");
    assert_eq!(LcuError::PlayerNotInGame.message(), "无法在对局中找到当前玩家");
    assert_eq!(LcuError::TeamNotFound.message(), "无法确定当前玩家的队伍");
    assert_eq!(LcuError::Request("boom".to_string()).message(), "boom");
}
