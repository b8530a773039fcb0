//! The longer doings of the program, step by step: what comes after what, and what an error
//! leads to.
use vstd::prelude::*;
use crate::cert::AUTHORITY_NAME;
use crate::config::switch_setting;
use crate::text::{chars_of, is_text, lossy, option_text, text_of, views};

verus! {

/// A step of a run of the proxy.
#[derive(Clone, Copy, Debug, PartialEq, Eq, Structural)]
pub enum RunStep {
    /// Get ready, if that was not done before.
    Init,
    /// See whether the file with the rules is there.
    FindRules,
    /// Download the rules.
    Fetch,
    /// Read the rules.
    Load,
    /// Write the block into the hosts file.
    Apply,
    /// See whether the address to listen at is an IP address.
    FindAddress,
    /// Look the address up.
    Lookup,
    /// Listen.
    Listen,
    /// Wait for the order to stop.
    Wait,
    /// Take the block out of the hosts file.
    Restore,
    /// The run is over.
    Done,
    /// The run is over, with an error.
    Failed,
}

/// The step that follows, by how one went: of a step that looks, whether it found; of the wait,
/// whether the order has come; of any other, whether it succeeded.
pub open spec fn run_next(step: RunStep, yes: bool) -> RunStep {
    match step {
        RunStep::Init => if yes {
            RunStep::FindRules
        } else {
            RunStep::Failed
        },
        RunStep::FindRules => if yes {
            RunStep::Load
        } else {
            RunStep::Fetch
        },
        RunStep::Fetch => if yes {
            RunStep::Load
        } else {
            RunStep::Failed
        },
        RunStep::Load => if yes {
            RunStep::Apply
        } else {
            RunStep::Failed
        },
        RunStep::Apply => if yes {
            RunStep::FindAddress
        } else {
            RunStep::Failed
        },
        RunStep::FindAddress => if yes {
            RunStep::Listen
        } else {
            RunStep::Lookup
        },
        RunStep::Lookup => if yes {
            RunStep::Listen
        } else {
            RunStep::Failed
        },
        RunStep::Listen => RunStep::Wait,
        RunStep::Wait => if yes {
            RunStep::Restore
        } else {
            RunStep::Wait
        },
        RunStep::Restore => if yes {
            RunStep::Done
        } else {
            RunStep::Failed
        },
        RunStep::Done => RunStep::Done,
        RunStep::Failed => RunStep::Failed,
    }
}

/// The step that follows in a run of the proxy.
pub fn async_run(step: RunStep, yes: bool) -> (r: RunStep)
    ensures
        r == run_next(step, yes),
{
    match (step, yes) {
        (RunStep::Init, true) => RunStep::FindRules,
        (RunStep::FindRules, true) => RunStep::Load,
        (RunStep::FindRules, false) => RunStep::Fetch,
        (RunStep::Fetch, true) => RunStep::Load,
        (RunStep::Load, true) => RunStep::Apply,
        (RunStep::Apply, true) => RunStep::FindAddress,
        (RunStep::FindAddress, true) => RunStep::Listen,
        (RunStep::FindAddress, false) => RunStep::Lookup,
        (RunStep::Lookup, true) => RunStep::Listen,
        (RunStep::Listen, _) => RunStep::Wait,
        (RunStep::Wait, true) => RunStep::Restore,
        (RunStep::Wait, false) => RunStep::Wait,
        (RunStep::Restore, true) => RunStep::Done,
        (RunStep::Done, _) => RunStep::Done,
        (_, _) => RunStep::Failed,
    }
}

/// Whether the block stands in the hosts file before a step, where no step failed.
pub open spec fn block_stands(step: RunStep) -> bool {
    step == RunStep::FindAddress || step == RunStep::Lookup || step == RunStep::Listen || step
        == RunStep::Wait || step == RunStep::Restore
}

/// Once the block stands in the hosts file, a run ends without an error only by taking it out.
pub proof fn law_run_takes_block_out(step: RunStep, yes: bool)
    requires
        block_stands(step),
    ensures
        block_stands(run_next(step, yes)) || run_next(step, yes) == RunStep::Failed || (step
            == RunStep::Restore && yes && run_next(step, yes) == RunStep::Done),
{
}

/// Before the block stands in the hosts file the rules have been read, and nobody listens.
pub proof fn law_rules_before_block(step: RunStep, yes: bool)
    ensures
        run_next(step, yes) == RunStep::Apply ==> step == RunStep::Load && yes,
        run_next(step, yes) == RunStep::Listen ==> block_stands(step),
        block_stands(run_next(step, yes)) && !block_stands(step) ==> step == RunStep::Apply && yes,
{
}

/// A step of getting ready.
#[derive(Clone, Copy, Debug, PartialEq, Eq, Structural)]
pub enum InitStep {
    /// Install the cryptography.
    Crypto,
    /// Take up the limits in time from the settings.
    Limits,
    /// See whether the directory for the data is there.
    FindData,
    /// Make the directory for the data.
    MakeData,
    /// See whether both files of the authority are there.
    FindAuthority,
    /// Make an authority.
    MakeAuthority,
    /// Make the system trust the authority.
    Install,
    /// Take up the authority and the list of public suffixes.
    Certs,
    /// Take up the trusted roots, and where the rules are had from.
    Rules,
    /// Forget where hosts were reached.
    Proxy,
    /// All is ready.
    Done,
    /// It cannot be made ready.
    Failed,
}

/// The step that follows in getting ready, by how one went: of a step that looks, whether it
/// found; of any other, whether it succeeded. That the system does not trust the authority is
/// no error.
pub open spec fn init_next(step: InitStep, yes: bool) -> InitStep {
    if !yes && step != InitStep::FindData && step != InitStep::FindAuthority && step
        != InitStep::Install && step != InitStep::Done {
        InitStep::Failed
    } else {
        match step {
            InitStep::Crypto => InitStep::Limits,
            InitStep::Limits => InitStep::FindData,
            InitStep::FindData => if yes {
                InitStep::FindAuthority
            } else {
                InitStep::MakeData
            },
            InitStep::MakeData => InitStep::FindAuthority,
            InitStep::FindAuthority => if yes {
                InitStep::Install
            } else {
                InitStep::MakeAuthority
            },
            InitStep::MakeAuthority => InitStep::Install,
            InitStep::Install => InitStep::Certs,
            InitStep::Certs => InitStep::Rules,
            InitStep::Rules => InitStep::Proxy,
            InitStep::Proxy => InitStep::Done,
            InitStep::Done => InitStep::Done,
            InitStep::Failed => InitStep::Failed,
        }
    }
}

/// The step that follows in getting ready.
pub fn ensure_init(step: InitStep, yes: bool) -> (r: InitStep)
    ensures
        r == init_next(step, yes),
{
    match (step, yes) {
        (InitStep::Crypto, true) => InitStep::Limits,
        (InitStep::Limits, true) => InitStep::FindData,
        (InitStep::FindData, true) => InitStep::FindAuthority,
        (InitStep::FindData, false) => InitStep::MakeData,
        (InitStep::MakeData, true) => InitStep::FindAuthority,
        (InitStep::FindAuthority, true) => InitStep::Install,
        (InitStep::FindAuthority, false) => InitStep::MakeAuthority,
        (InitStep::MakeAuthority, true) => InitStep::Install,
        (InitStep::Install, _) => InitStep::Certs,
        (InitStep::Certs, true) => InitStep::Rules,
        (InitStep::Rules, true) => InitStep::Proxy,
        (InitStep::Proxy, true) => InitStep::Done,
        (InitStep::Done, _) => InitStep::Done,
        (_, _) => InitStep::Failed,
    }
}

/// Whether both files of the authority are there: with one alone a new authority is made.
pub fn authority_found(cert_exists: bool, key_exists: bool) -> (r: bool)
    ensures
        r == (cert_exists && key_exists),
{
    cert_exists && key_exists
}

/// What came of getting ready, which is tried once.
pub struct InitRecord {
    result: Option<Option<String>>,
}

impl View for InitRecord {
    /// Nothing before it was tried; then the error, where there was one.
    type V = Option<Option<Seq<char>>>;

    closed spec fn view(&self) -> Option<Option<Seq<char>>> {
        match self.result {
            None => None,
            Some(None) => Some(None),
            Some(Some(e)) => Some(Some(e@)),
        }
    }
}

impl InitRecord {
    /// Before it was tried.
    pub fn new() -> (r: InitRecord)
        ensures
            r@ is None,
    {
        InitRecord { result: None }
    }

    /// Whether it was tried.
    pub fn tried(&self) -> (r: bool)
        ensures
            r == (self@ is Some),
    {
        self.result.is_some()
    }

    /// What came of it.
    pub fn outcome(&self) -> (r: Result<(), String>)
        requires
            self@ is Some,
        ensures
            match r {
                Ok(_) => self@ == Some(None::<Seq<char>>),
                Err(e) => self@ == Some(Some(e@)),
            },
    {
        match &self.result {
            Some(Some(e)) => Err(e.clone()),
            _ => Ok(()),
        }
    }

    /// Takes up what came of it; what came of it first stays.
    pub fn record(&mut self, error: Option<String>)
        ensures
            final(self)@ == match old(self)@ {
                Some(known) => Some(known),
                None => Some(option_text(error)),
            },
    {
        if self.result.is_none() {
            self.result = Some(error);
        }
    }
}

/// A step of changing the authority.
#[derive(Clone, Copy, Debug, PartialEq, Eq, Structural)]
pub enum ResetStep {
    /// Make the directory for the data.
    MakeData,
    /// Remove the files of the authority.
    RemoveFiles,
    /// Make the system forget the authority.
    Uninstall,
    /// Make another authority.
    MakeAuthority,
    /// Make the system trust it.
    Install,
    /// Take it up.
    Reload,
    /// The authority was changed.
    Done,
    /// The authority was not changed.
    Failed,
}

/// The step that follows in changing the authority, by whether one succeeded. That there was
/// nothing to remove is no error, nor that the system does not trust the authority.
pub open spec fn reset_next(step: ResetStep, yes: bool) -> ResetStep {
    match step {
        ResetStep::MakeData => if yes {
            ResetStep::RemoveFiles
        } else {
            ResetStep::Failed
        },
        ResetStep::RemoveFiles => ResetStep::Uninstall,
        ResetStep::Uninstall => ResetStep::MakeAuthority,
        ResetStep::MakeAuthority => if yes {
            ResetStep::Install
        } else {
            ResetStep::Failed
        },
        ResetStep::Install => ResetStep::Reload,
        ResetStep::Reload => if yes {
            ResetStep::Done
        } else {
            ResetStep::Failed
        },
        ResetStep::Done => ResetStep::Done,
        ResetStep::Failed => ResetStep::Failed,
    }
}

/// What is said of an error in a step of changing the authority, in front of the error.
pub open spec fn reset_message(step: ResetStep) -> Seq<char> {
    match step {
        ResetStep::MakeData => "创建目录失败: "@,
        ResetStep::MakeAuthority => "生成 CA 证书失败: "@,
        ResetStep::Reload => "重载 CA 证书失败: "@,
        _ => Seq::empty(),
    }
}

/// The step that follows in changing the authority.
pub fn reset_cert(step: ResetStep, yes: bool) -> (r: ResetStep)
    ensures
        r == reset_next(step, yes),
{
    match (step, yes) {
        (ResetStep::MakeData, true) => ResetStep::RemoveFiles,
        (ResetStep::RemoveFiles, _) => ResetStep::Uninstall,
        (ResetStep::Uninstall, _) => ResetStep::MakeAuthority,
        (ResetStep::MakeAuthority, true) => ResetStep::Install,
        (ResetStep::Install, _) => ResetStep::Reload,
        (ResetStep::Reload, true) => ResetStep::Done,
        (ResetStep::Done, _) => ResetStep::Done,
        (_, _) => ResetStep::Failed,
    }
}

/// What is said of an error in a step of changing the authority.
pub fn reset_error(step: ResetStep, why: &str) -> (r: String)
    ensures
        r@ == reset_message(step) + why@,
{
    let mut out: String = String::new();
    match step {
        ResetStep::MakeData => {
            out.append("创建目录失败: ");
        },
        ResetStep::MakeAuthority => {
            out.append("生成 CA 证书失败: ");
        },
        ResetStep::Reload => {
            out.append("重载 CA 证书失败: ");
        },
        _ => {},
    }
    out.append(why);
    assert(out@ =~= reset_message(step) + why@);
    out
}

/// The settings that the window may change.
pub open spec fn changeable(key: Seq<char>) -> bool {
    key == "AUTOSTART"@ || key == "AUTO_RUN"@ || key == "SILENT_LAUNCH"@
}

/// Whether a setting may be changed from the window, and then whether the shortcut is to follow
/// it; else what is said of it.
pub fn set_config(key: &str) -> (r: Result<bool, String>)
    ensures
        match r {
            Ok(follows) => changeable(key@) && follows == (key@ == "AUTOSTART"@),
            Err(why) => !changeable(key@) && why@ == "未知配置项: "@ + key@,
        },
{
    let k: Vec<char> = chars_of(key);
    if is_text(k.as_slice(), "AUTOSTART") {
        Ok(true)
    } else if is_text(k.as_slice(), "AUTO_RUN") || is_text(k.as_slice(), "SILENT_LAUNCH") {
        Ok(false)
    } else {
        let mut why: String = String::new();
        why.append("未知配置项: ");
        why.append(key);
        assert(why@ =~= "未知配置项: "@ + key@);
        Err(why)
    }
}

/// The parts of the path of the shortcut that starts the program with the system: the directory
/// for applications, or the one that stands for it, and what is below it.
pub open spec fn shortcut_parts(appdata: Option<Seq<char>>) -> Seq<Seq<char>> {
    seq![
        match appdata {
            Some(a) => a,
            None => "C:\\Users\\Default\\AppData\\Roaming"@,
        },
        "Microsoft\\Windows\\Start Menu\\Programs\\Startup"@,
        "gfwsni.lnk"@,
    ]
}

/// The parts of the path of the shortcut that starts the program with the system.
pub fn startup_shortcut_path(appdata: Option<String>) -> (r: Vec<String>)
    ensures
        views(r@) == shortcut_parts(option_text(appdata)),
{
    let mut parts: Vec<String> = Vec::new();
    let ghost given = option_text(appdata);
    parts.push(
        match appdata {
            Some(a) => a,
            None => "C:\\Users\\Default\\AppData\\Roaming".to_string(),
        },
    );
    parts.push("Microsoft\\Windows\\Start Menu\\Programs\\Startup".to_string());
    parts.push("gfwsni.lnk".to_string());
    assert(views(parts@) =~= shortcut_parts(given));
    parts
}

/// Whether the program starts with the system: where the shortcut is there, on a system that
/// has shortcuts.
pub open spec fn autostarts(has_shortcuts: bool, shortcut_exists: bool) -> bool {
    has_shortcuts && shortcut_exists
}

/// Whether the program starts with the system.
pub fn is_autostart_enabled(has_shortcuts: bool, shortcut_exists: bool) -> (r: bool)
    ensures
        r == autostarts(has_shortcuts, shortcut_exists),
{
    has_shortcuts && shortcut_exists
}

/// What is done about the shortcut.
pub enum ShortcutStep {
    /// This script is run, which makes it.
    Run(String),
    /// Its file is removed.
    Remove,
    /// Nothing is done.
    Nothing,
    /// It cannot be had on this system.
    Unsupported,
}

/// What is done about the shortcut, as plain values.
pub enum ShortcutPlan {
    /// This script is run, which makes it.
    Run(Seq<char>),
    /// Its file is removed.
    Remove,
    /// Nothing is done.
    Nothing,
    /// It cannot be had on this system.
    Unsupported,
}

impl View for ShortcutStep {
    type V = ShortcutPlan;

    open spec fn view(&self) -> ShortcutPlan {
        match self {
            ShortcutStep::Run(script) => ShortcutPlan::Run(script@),
            ShortcutStep::Remove => ShortcutPlan::Remove,
            ShortcutStep::Nothing => ShortcutPlan::Nothing,
            ShortcutStep::Unsupported => ShortcutPlan::Unsupported,
        }
    }
}

/// The script that makes the shortcut.
pub open spec fn shortcut_script(path: Seq<char>, exe: Seq<char>) -> Seq<char> {
    "$s=(New-Object -ComObject WScript.Shell).CreateShortcut('"@ + path + "');$s.TargetPath='"@
        + exe + "';$s.Save()"@
}

/// What is done about the shortcut, so that it is there where, and only where, it is wanted.
pub open spec fn shortcut_plan(
    has_shortcuts: bool,
    enabled: bool,
    shortcut_exists: bool,
    path: Seq<char>,
    exe: Seq<char>,
) -> ShortcutPlan {
    if !has_shortcuts {
        ShortcutPlan::Unsupported
    } else if enabled {
        ShortcutPlan::Run(shortcut_script(path, exe))
    } else if shortcut_exists {
        ShortcutPlan::Remove
    } else {
        ShortcutPlan::Nothing
    }
}

/// Whether the shortcut is there once the step was done, where the system did as it was told.
pub open spec fn shortcut_after(plan: ShortcutPlan, shortcut_exists: bool) -> bool {
    match plan {
        ShortcutPlan::Run(_) => true,
        ShortcutPlan::Remove => false,
        ShortcutPlan::Nothing => shortcut_exists,
        ShortcutPlan::Unsupported => shortcut_exists,
    }
}

/// Once it was set whether the program starts with the system, it does where, and only where,
/// that was wanted. On a system without shortcuts the step says so, and it never does.
pub proof fn law_autostart_follows(
    has_shortcuts: bool,
    enabled: bool,
    shortcut_exists: bool,
    path: Seq<char>,
    exe: Seq<char>,
)
    ensures
        ({
            let plan = shortcut_plan(has_shortcuts, enabled, shortcut_exists, path, exe);
            let after = autostarts(has_shortcuts, shortcut_after(plan, shortcut_exists));
            &&& plan is Unsupported <==> !has_shortcuts
            &&& has_shortcuts ==> after == enabled
            &&& !has_shortcuts ==> !after
        }),
{
}

/// Decides what is done about the shortcut.
pub fn set_autostart(
    has_shortcuts: bool,
    enabled: bool,
    shortcut_exists: bool,
    path: &str,
    exe: &str,
) -> (r: ShortcutStep)
    ensures
        r@ == shortcut_plan(has_shortcuts, enabled, shortcut_exists, path@, exe@),
{
    if !has_shortcuts {
        ShortcutStep::Unsupported
    } else if enabled {
        let mut script: String = String::new();
        script.append("$s=(New-Object -ComObject WScript.Shell).CreateShortcut('");
        script.append(path);
        script.append("');$s.TargetPath='");
        script.append(exe);
        script.append("';$s.Save()");
        assert(script@ =~= shortcut_script(path@, exe@));
        ShortcutStep::Run(script)
    } else if shortcut_exists {
        ShortcutStep::Remove
    } else {
        ShortcutStep::Nothing
    }
}

/// What came of the script that makes the shortcut: an error holds what the script said.
pub fn shortcut_made(success: bool, said: &[u8]) -> (r: Result<(), String>)
    ensures
        match r {
            Ok(_) => success,
            Err(why) => !success && why@ == "创建快捷方式失败: "@ + text_of(said@),
        },
{
    if success {
        Ok(())
    } else {
        let mut why: String = String::new();
        why.append("创建快捷方式失败: ");
        why.append(lossy(said).as_str());
        assert(why@ =~= "创建快捷方式失败: "@ + text_of(said@));
        Err(why)
    }
}

/// Whether the program has the rights it needs.
#[derive(Clone, Copy, Debug, PartialEq, Eq, Structural)]
pub enum Rights {
    /// It has them.
    Granted,
    /// It cannot be told.
    Unknown,
    /// It does not have them.
    Denied,
}

/// Decides whether the program has the rights it needs, by what the system says: whether its
/// token could be opened, whether the token could be asked, and whether it is elevated.
pub fn check_admin(opened: bool, asked: bool, elevated: bool) -> (r: Rights)
    ensures
        r == Rights::Granted <==> opened && asked && elevated,
        r == if !opened {
            Rights::Unknown
        } else if asked && elevated {
            Rights::Granted
        } else {
            Rights::Denied
        },
{
    if !opened {
        Rights::Unknown
    } else if asked && elevated {
        Rights::Granted
    } else {
        Rights::Denied
    }
}

/// The arguments with which the system's tool is told to trust a certificate.
pub fn install_args(cert_path: &str) -> (r: Vec<String>)
    ensures
        views(r@) == seq!["-addstore"@, "-f"@, "Root"@, cert_path@],
{
    let mut args: Vec<String> = Vec::new();
    args.push("-addstore".to_string());
    args.push("-f".to_string());
    args.push("Root".to_string());
    args.push(cert_path.to_string());
    assert(views(args@) =~= seq!["-addstore"@, "-f"@, "Root"@, cert_path@]);
    args
}

/// The arguments with which the system's tool is told to forget every authority that was made
/// here.
pub fn uninstall_args() -> (r: Vec<String>)
    ensures
        views(r@) == seq!["-delstore"@, "Root"@, AUTHORITY_NAME@],
{
    let mut args: Vec<String> = Vec::new();
    args.push("-delstore".to_string());
    args.push("Root".to_string());
    args.push(AUTHORITY_NAME.to_string());
    assert(views(args@) =~= seq!["-delstore"@, "Root"@, AUTHORITY_NAME@]);
    args
}

/// A run in which all goes well gets ready, finds and reads the rules, writes the block, listens,
/// waits, takes the block out, and is over, in this order.
pub proof fn law_run_goes_well(i: int)
    requires
        0 <= i < 8,
    ensures
        ({
            let course = seq![
                RunStep::Init,
                RunStep::FindRules,
                RunStep::Load,
                RunStep::Apply,
                RunStep::FindAddress,
                RunStep::Listen,
                RunStep::Wait,
                RunStep::Restore,
                RunStep::Done,
            ];
            run_next(course[i], true) == course[i + 1]
        }),
{
}

/// Rules that are not there are downloaded and then read; an address to listen at that is a name
/// is looked up first; the wait goes on until the order comes; and what is over stays so.
pub proof fn law_run_detours(yes: bool)
    ensures
        run_next(RunStep::FindRules, false) == RunStep::Fetch,
        run_next(RunStep::Fetch, true) == RunStep::Load,
        run_next(RunStep::FindAddress, false) == RunStep::Lookup,
        run_next(RunStep::Lookup, true) == RunStep::Listen,
        run_next(RunStep::Listen, yes) == RunStep::Wait,
        run_next(RunStep::Wait, false) == RunStep::Wait,
        run_next(RunStep::Done, yes) == RunStep::Done,
        run_next(RunStep::Failed, yes) == RunStep::Failed,
{
}

/// A step of a run that does something, and fails, ends the run with an error; nothing else does.
pub proof fn law_run_fails(step: RunStep, yes: bool)
    requires
        step != RunStep::Failed,
    ensures
        run_next(step, yes) == RunStep::Failed <==> !yes && (step == RunStep::Init || step
            == RunStep::Fetch || step == RunStep::Load || step == RunStep::Apply || step
            == RunStep::Lookup || step == RunStep::Restore),
{
}

/// To get ready is to go through the steps in order: the cryptography, the limits, the directory,
/// the authority, which the system is made to trust and which is then taken up, the rules, and the
/// hosts that were reached.
pub proof fn law_init_goes_well(i: int)
    requires
        0 <= i < 8,
    ensures
        ({
            let course = seq![
                InitStep::Crypto,
                InitStep::Limits,
                InitStep::FindData,
                InitStep::FindAuthority,
                InitStep::Install,
                InitStep::Certs,
                InitStep::Rules,
                InitStep::Proxy,
                InitStep::Done,
            ];
            init_next(course[i], true) == course[i + 1]
        }),
{
}

/// A directory that is not there is made, and so is an authority, before the next step; that the
/// system does not trust the authority stops nothing; and what is over stays so.
pub proof fn law_init_detours(yes: bool)
    ensures
        init_next(InitStep::FindData, false) == InitStep::MakeData,
        init_next(InitStep::MakeData, true) == InitStep::FindAuthority,
        init_next(InitStep::FindAuthority, false) == InitStep::MakeAuthority,
        init_next(InitStep::MakeAuthority, true) == InitStep::Install,
        init_next(InitStep::Install, yes) == InitStep::Certs,
        init_next(InitStep::Done, yes) == InitStep::Done,
        init_next(InitStep::Failed, yes) == InitStep::Failed,
{
}

/// A step of getting ready that fails ends it, but for the one that makes the system trust the
/// authority.
pub proof fn law_init_fails(step: InitStep, yes: bool)
    requires
        step != InitStep::Failed,
    ensures
        init_next(step, yes) == InitStep::Failed <==> !yes && (step == InitStep::Crypto || step
            == InitStep::Limits || step == InitStep::MakeData || step == InitStep::MakeAuthority || step
            == InitStep::Certs || step == InitStep::Rules || step == InitStep::Proxy),
{
}

/// The authority is changed in this order: the old one is removed and forgotten before the new one
/// is made, and the new one is trusted before it is taken up. An error in making the directory or
/// the authority, or in taking it up, ends the change, and nothing else does.
pub proof fn law_reset_order(step: ResetStep, yes: bool, i: int)
    ensures
        0 <= i < 6 ==> ({
            let course = seq![
                ResetStep::MakeData,
                ResetStep::RemoveFiles,
                ResetStep::Uninstall,
                ResetStep::MakeAuthority,
                ResetStep::Install,
                ResetStep::Reload,
                ResetStep::Done,
            ];
            reset_next(course[i], true) == course[i + 1]
        }),
        reset_next(ResetStep::RemoveFiles, yes) == ResetStep::Uninstall,
        reset_next(ResetStep::Uninstall, yes) == ResetStep::MakeAuthority,
        reset_next(ResetStep::Install, yes) == ResetStep::Reload,
        reset_next(ResetStep::Done, yes) == ResetStep::Done,
        reset_next(step, yes) == ResetStep::Failed <==> step == ResetStep::Failed || (!yes && (step
            == ResetStep::MakeData || step == ResetStep::MakeAuthority || step == ResetStep::Reload)),
{
}

/// What is said of each step of changing the authority that can fail, and nothing of the others.
pub proof fn law_reset_messages(step: ResetStep)
    ensures
        reset_message(ResetStep::MakeData) == "创建目录失败: "@,
        reset_message(ResetStep::MakeAuthority) == "生成 CA 证书失败: "@,
        reset_message(ResetStep::Reload) == "重载 CA 证书失败: "@,
        reset_next(step, false) != ResetStep::Failed ==> reset_message(step).len() == 0,
{
}

/// The settings that the window may change are the three that it shows: those whose position makes
/// a difference to what is shown.
pub proof fn law_changeable(env: Map<Seq<char>, Seq<char>>, key: Seq<char>)
    ensures
        changeable("AUTOSTART"@) && changeable("AUTO_RUN"@) && changeable("SILENT_LAUNCH"@),
        !changeable(key) ==> forall|text: Seq<char>|
            #![trigger env.insert(key, text)]
            switch_setting(env.insert(key, text), "AUTOSTART"@, false) == switch_setting(
                env,
                "AUTOSTART"@,
                false,
            ) && switch_setting(env.insert(key, text), "AUTO_RUN"@, false) == switch_setting(
                env,
                "AUTO_RUN"@,
                false,
            ) && switch_setting(env.insert(key, text), "SILENT_LAUNCH"@, false) == switch_setting(
                env,
                "SILENT_LAUNCH"@,
                false,
            ),
        changeable(key) ==> key == "AUTOSTART"@ || key == "AUTO_RUN"@ || key == "SILENT_LAUNCH"@,
{
}

/// The shortcut stands in the startup folder of the directory for applications, under the name of
/// the program.
pub proof fn law_shortcut_place(appdata: Seq<char>)
    ensures
        shortcut_parts(Some(appdata)) == seq![
            appdata,
            "Microsoft\\Windows\\Start Menu\\Programs\\Startup"@,
            "gfwsni.lnk"@,
        ],
        shortcut_parts(None) == shortcut_parts(Some("C:\\Users\\Default\\AppData\\Roaming"@)),
{
}

/// The script makes a shortcut at the given path that leads to the given program: it holds both as
/// they are, and nothing else that rests on them.
pub proof fn law_shortcut_script(path: Seq<char>, exe: Seq<char>)
    ensures
        ({
            let p = "$s=(New-Object -ComObject WScript.Shell).CreateShortcut('"@.len() as int;
            let q = p + path.len();
            let r = q + "');$s.TargetPath='"@.len();
            let t = r + exe.len();
            let script = shortcut_script(path, exe);
            &&& script.take(p) == "$s=(New-Object -ComObject WScript.Shell).CreateShortcut('"@
            &&& script.subrange(p, q) == path
            &&& script.subrange(q, r) == "');$s.TargetPath='"@
            &&& script.subrange(r, t) == exe
            &&& script.skip(t) == "';$s.Save()"@
        }),
{
    let p = "$s=(New-Object -ComObject WScript.Shell).CreateShortcut('"@.len() as int;
    let q = p + path.len();
    let r = q + "');$s.TargetPath='"@.len();
    let t = r + exe.len();
    let script = shortcut_script(path, exe);
    assert(script.take(p) =~= "$s=(New-Object -ComObject WScript.Shell).CreateShortcut('"@);
    assert(script.subrange(p, q) =~= path);
    assert(script.subrange(q, r) =~= "');$s.TargetPath='"@);
    assert(script.subrange(r, t) =~= exe);
    assert(script.skip(t) =~= "';$s.Save()"@);
}

/// A shortcut that is wanted is made anew by its script, whether there is one or not; one that is
/// not wanted is removed where there is one.
pub proof fn law_shortcut_plan(shortcut_exists: bool, path: Seq<char>, exe: Seq<char>)
    ensures
        shortcut_plan(true, true, shortcut_exists, path, exe) == ShortcutPlan::Run(
            shortcut_script(path, exe),
        ),
        shortcut_plan(true, false, true, path, exe) == ShortcutPlan::Remove,
        shortcut_plan(true, false, false, path, exe) == ShortcutPlan::Nothing,
{
}

} // verus!
