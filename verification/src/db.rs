//! Opening the database of a vault: what is checked, in which order, and what follows from
//! it. All that the database holds can be had again from the notes, so one that is broken or
//! unknown is set aside and made anew; one that another process holds is left alone.

use vstd::prelude::*;

use crate::number::{decimal, law_signs_stand_before, signed_decimal, write_signed};
use crate::text::{chars_of, concat, push_chars, push_text, same_text, string_from};

verus! {

/// The version of the tables.
pub const SCHEMA_VERSION: i64 = 1;

/// Why a database was not opened.
#[derive(Debug, Clone, PartialEq, Eq)]
pub enum OpenError {
    /// It is to be made anew.
    Rebuild(String),
    /// Another process holds it: it must not be touched.
    Locked(String),
}

pub enum OpenErrorView {
    Rebuild(Seq<char>),
    Locked(Seq<char>),
}

impl View for OpenError {
    type V = OpenErrorView;

    open spec fn view(&self) -> OpenErrorView {
        match self {
            OpenError::Rebuild(m) => OpenErrorView::Rebuild(m@),
            OpenError::Locked(m) => OpenErrorView::Locked(m@),
        }
    }
}

/// What a check found.
#[derive(Debug)]
pub enum Probed {
    /// Whether the file is there.
    Exists(bool),
    /// Whether it could be opened.
    Opened(Result<(), String>),
    /// Whether it could be set up.
    Configured(Result<(), String>),
    /// What the check of its integrity said.
    Integrity(Result<String, String>),
    /// Whether it can be written to.
    WriteLock(Result<(), String>),
    /// The version of its tables.
    Version(Result<i64, String>),
    /// Whether the tables could be made.
    SchemaCreated(Result<(), String>),
}

pub enum ProbedView {
    Exists(bool),
    Opened(Result<(), Seq<char>>),
    Configured(Result<(), Seq<char>>),
    Integrity(Result<Seq<char>, Seq<char>>),
    WriteLock(Result<(), Seq<char>>),
    Version(Result<int, Seq<char>>),
    SchemaCreated(Result<(), Seq<char>>),
}

pub open spec fn done_view(r: Result<(), String>) -> Result<(), Seq<char>> {
    match r {
        Ok(_) => Ok(()),
        Err(e) => Err(e@),
    }
}

impl View for Probed {
    type V = ProbedView;

    open spec fn view(&self) -> ProbedView {
        match self {
            Probed::Exists(b) => ProbedView::Exists(*b),
            Probed::Opened(r) => ProbedView::Opened(done_view(*r)),
            Probed::Configured(r) => ProbedView::Configured(done_view(*r)),
            Probed::Integrity(r) => ProbedView::Integrity(
                match r {
                    Ok(s) => Ok(s@),
                    Err(e) => Err(e@),
                },
            ),
            Probed::WriteLock(r) => ProbedView::WriteLock(done_view(*r)),
            Probed::Version(r) => ProbedView::Version(
                match r {
                    Ok(v) => Ok(*v as int),
                    Err(e) => Err(e@),
                },
            ),
            Probed::SchemaCreated(r) => ProbedView::SchemaCreated(done_view(*r)),
        }
    }
}

/// What is done next.
#[derive(Debug, PartialEq, Eq)]
pub enum NextProbe {
    Open,
    Configure,
    Integrity,
    WriteLock,
    Version,
    CreateSchema,
    /// Nothing: the database is open.
    Ready,
    /// Nothing: it is not.
    Fail(OpenError),
}

pub enum NextView {
    Open,
    Configure,
    Integrity,
    WriteLock,
    Version,
    CreateSchema,
    Ready,
    Fail(OpenErrorView),
}

impl View for NextProbe {
    type V = NextView;

    open spec fn view(&self) -> NextView {
        match self {
            NextProbe::Open => NextView::Open,
            NextProbe::Configure => NextView::Configure,
            NextProbe::Integrity => NextView::Integrity,
            NextProbe::WriteLock => NextView::WriteLock,
            NextProbe::Version => NextView::Version,
            NextProbe::CreateSchema => NextView::CreateSchema,
            NextProbe::Ready => NextView::Ready,
            NextProbe::Fail(e) => NextView::Fail(e@),
        }
    }
}

/// What is said of a database whose tables are older: there is no way from them.
pub open spec fn no_migration(from: int) -> Seq<char> {
    "没有从 v"@ + signed_decimal(from) + " 出发的迁移路径"@
}

/// What is done after the version of the tables is known: an empty database gets tables; one
/// that is newer or older is made anew.
pub open spec fn after_version(version: int) -> NextView {
    if version == 0 {
        NextView::CreateSchema
    } else if version > SCHEMA_VERSION {
        NextView::Fail(
            OpenErrorView::Rebuild(
                "schema 版本 "@ + signed_decimal(version) + " 高于当前支持的 "@ + signed_decimal(
                    SCHEMA_VERSION as int,
                ),
            ),
        )
    } else if version < SCHEMA_VERSION {
        NextView::Fail(OpenErrorView::Rebuild(no_migration(version)))
    } else {
        NextView::Ready
    }
}

/// What is done after a check.
pub open spec fn after_probe(p: ProbedView) -> NextView {
    match p {
        ProbedView::Exists(there) => if there {
            NextView::Open
        } else {
            NextView::Fail(OpenErrorView::Rebuild("数据库不存在"@))
        },
        ProbedView::Opened(r) => match r {
            Ok(_) => NextView::Configure,
            Err(e) => NextView::Fail(OpenErrorView::Rebuild("打开失败: "@ + e)),
        },
        ProbedView::Configured(r) => match r {
            Ok(_) => NextView::Integrity,
            Err(e) => NextView::Fail(OpenErrorView::Rebuild(e)),
        },
        ProbedView::Integrity(r) => match r {
            Ok(said) => if said == "ok"@ {
                NextView::WriteLock
            } else {
                NextView::Fail(OpenErrorView::Rebuild("完整性检查未通过: "@ + said))
            },
            Err(e) => NextView::Fail(OpenErrorView::Rebuild("完整性检查失败: "@ + e)),
        },
        ProbedView::WriteLock(r) => match r {
            Ok(_) => NextView::Version,
            Err(e) => NextView::Fail(
                OpenErrorView::Locked("数据库被占用，可能有另一个实例正在运行: "@ + e),
            ),
        },
        ProbedView::Version(r) => match r {
            Ok(version) => after_version(version),
            Err(e) => NextView::Fail(OpenErrorView::Rebuild("读 schema 版本失败: "@ + e)),
        },
        ProbedView::SchemaCreated(r) => match r {
            Ok(_) => NextView::Ready,
            Err(e) => NextView::Fail(OpenErrorView::Rebuild(e)),
        },
    }
}

/// There is no way from older tables to the present ones: says so.
pub fn migrate(from: i64) -> (r: Result<(), String>)
    ensures
        r matches Err(m) && m@ == no_migration(from as int),
{
    let mut m: Vec<char> = chars_of("没有从 v");
    push_chars(&mut m, write_signed(from).as_slice());
    push_text(&mut m, " 出发的迁移路径");
    Err(string_from(m.as_slice()))
}

fn rebuild(message: &str, detail: &str) -> (r: NextProbe)
    ensures
        r@ == NextView::Fail(OpenErrorView::Rebuild(message@ + detail@)),
{
    NextProbe::Fail(OpenError::Rebuild(concat(message, detail)))
}

fn judge_version(version: i64) -> (r: NextProbe)
    ensures
        r@ == after_version(version as int),
{
    if version == 0 {
        return NextProbe::CreateSchema;
    }
    if version > SCHEMA_VERSION {
        let mut m: Vec<char> = chars_of("schema 版本 ");
        push_chars(&mut m, write_signed(version).as_slice());
        push_text(&mut m, " 高于当前支持的 ");
        push_chars(&mut m, write_signed(SCHEMA_VERSION).as_slice());
        return NextProbe::Fail(OpenError::Rebuild(string_from(m.as_slice())));
    }
    if version < SCHEMA_VERSION {
        return match migrate(version) {
            Ok(_) => NextProbe::Ready,
            Err(m) => NextProbe::Fail(OpenError::Rebuild(m)),
        };
    }
    NextProbe::Ready
}

/// What is done to a database that is to be opened, after a check of it.
pub fn try_open(probed: Probed) -> (r: NextProbe)
    ensures
        r@ == after_probe(probed@),
{
    match probed {
        Probed::Exists(there) => if there {
            NextProbe::Open
        } else {
            NextProbe::Fail(OpenError::Rebuild("数据库不存在".to_string()))
        },
        Probed::Opened(r) => match r {
            Ok(_) => NextProbe::Configure,
            Err(e) => rebuild("打开失败: ", e.as_str()),
        },
        Probed::Configured(r) => match r {
            Ok(_) => NextProbe::Integrity,
            Err(e) => NextProbe::Fail(OpenError::Rebuild(e)),
        },
        Probed::Integrity(r) => match r {
            Ok(said) => if same_text(chars_of(said.as_str()).as_slice(), "ok") {
                NextProbe::WriteLock
            } else {
                rebuild("完整性检查未通过: ", said.as_str())
            },
            Err(e) => rebuild("完整性检查失败: ", e.as_str()),
        },
        Probed::WriteLock(r) => match r {
            Ok(_) => NextProbe::Version,
            Err(e) => NextProbe::Fail(
                OpenError::Locked(
                    concat("数据库被占用，可能有另一个实例正在运行: ", e.as_str()),
                ),
            ),
        },
        Probed::Version(r) => match r {
            Ok(version) => judge_version(version),
            Err(e) => rebuild("读 schema 版本失败: ", e.as_str()),
        },
        Probed::SchemaCreated(r) => match r {
            Ok(_) => NextProbe::Ready,
            Err(e) => NextProbe::Fail(OpenError::Rebuild(e)),
        },
    }
}

/// What follows from an error.
#[derive(Debug, PartialEq, Eq)]
pub enum Recovery {
    /// Set the file aside and make the database anew.
    Rebuild,
    /// Leave the file alone and tell the user.
    Report(String),
}

impl OpenError {
    /// What follows from the error: a database that another process holds is never made
    /// anew.
    pub fn recovery(self) -> (r: Recovery)
        ensures
            match self@ {
                OpenErrorView::Rebuild(_) => r is Rebuild,
                OpenErrorView::Locked(m) => r matches Recovery::Report(said) && said@ == m,
            },
    {
        match self {
            OpenError::Rebuild(_) => Recovery::Rebuild,
            OpenError::Locked(m) => Recovery::Report(m),
        }
    }
}

/// A database that cannot be written to is left alone, and no other is.
pub proof fn law_locked_databases_are_left_alone(p: ProbedView)
    ensures
        (after_probe(p) matches NextView::Fail(e) && e is Locked) <==> (
        p matches ProbedView::WriteLock(r) && r is Err),
{
}

/// A database is opened only where its tables are of the present version, or were made just
/// now.
pub proof fn law_only_known_tables_are_opened(p: ProbedView)
    ensures
        after_probe(p) is Ready <==> p == ProbedView::Version(Ok(SCHEMA_VERSION as int)) || (
        p matches ProbedView::SchemaCreated(r) && r is Ok),
{
}

/// The checks come one after the other, each after the one before has found nothing wrong,
/// and a database without tables gets them.
pub proof fn law_checks_come_in_order()
    ensures
        after_probe(ProbedView::Exists(true)) is Open,
        after_probe(ProbedView::Opened(Ok(()))) is Configure,
        after_probe(ProbedView::Configured(Ok(()))) is Integrity,
        after_probe(ProbedView::Integrity(Ok("ok"@))) is WriteLock,
        after_probe(ProbedView::WriteLock(Ok(()))) is Version,
        after_probe(ProbedView::Version(Ok(0))) is CreateSchema,
        after_probe(ProbedView::Version(Ok(1))) is Ready,
        after_probe(ProbedView::SchemaCreated(Ok(()))) is Ready,
{
}

/// What is said of a check that found something wrong: what was checked, and what was found.
pub proof fn law_faults_are_told(e: Seq<char>)
    ensures
        after_probe(ProbedView::Exists(false)) == NextView::Fail(
            OpenErrorView::Rebuild("数据库不存在"@),
        ),
        after_probe(ProbedView::Opened(Err(e))) == NextView::Fail(
            OpenErrorView::Rebuild("打开失败: "@ + e),
        ),
        after_probe(ProbedView::Configured(Err(e))) == NextView::Fail(OpenErrorView::Rebuild(e)),
        after_probe(ProbedView::Integrity(Err(e))) == NextView::Fail(
            OpenErrorView::Rebuild("完整性检查失败: "@ + e),
        ),
        e != "ok"@ ==> after_probe(ProbedView::Integrity(Ok(e))) == NextView::Fail(
            OpenErrorView::Rebuild("完整性检查未通过: "@ + e),
        ),
        after_probe(ProbedView::WriteLock(Err(e))) == NextView::Fail(
            OpenErrorView::Locked("数据库被占用，可能有另一个实例正在运行: "@ + e),
        ),
        after_probe(ProbedView::Version(Err(e))) == NextView::Fail(
            OpenErrorView::Rebuild("读 schema 版本失败: "@ + e),
        ),
        after_probe(ProbedView::SchemaCreated(Err(e))) == NextView::Fail(
            OpenErrorView::Rebuild(e),
        ),
{
}

/// Tables of a later or an earlier version are not used: the user is told which version they
/// have.
pub proof fn law_other_versions_are_made_anew(version: nat)
    requires
        version > 0,
    ensures
        version > 1 ==> after_probe(ProbedView::Version(Ok(version as int))) == NextView::Fail(
            OpenErrorView::Rebuild(
                "schema 版本 "@ + decimal(version) + " 高于当前支持的 "@ + seq!['1'],
            ),
        ),
        after_probe(ProbedView::Version(Ok(-version))) == NextView::Fail(
            OpenErrorView::Rebuild(
                "没有从 v"@ + (seq!['-'] + decimal(version)) + " 出发的迁移路径"@,
            ),
        ),
{
    law_signs_stand_before(version);
    law_signs_stand_before(1);
    reveal_with_fuel(decimal, 2);
    assert(decimal(1) =~= seq!['1']);
}

} // verus!
