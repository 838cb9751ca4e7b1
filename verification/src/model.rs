//! The records that settings, tasks, outlines and drafts are made of.

use vstd::prelude::*;
use vstd::string::StringExecFns;

use crate::findings::copy_texts;
use crate::text::texts;

verus! {

/// How the database is reached.
pub struct DbConfig {
    pub host: String,
    pub port: u16,
    pub database: String,
    pub user: String,
    pub password: String,
    pub tls: bool,
    pub max_connections: u32,
}

impl Clone for DbConfig {
    fn clone(&self) -> (r: Self)
        ensures
            r == *self,
    {
        DbConfig {
            host: self.host.clone(),
            port: self.port,
            database: self.database.clone(),
            user: self.user.clone(),
            password: self.password.clone(),
            tls: self.tls,
            max_connections: self.max_connections,
        }
    }
}

/// The database of a new installation.
pub open spec fn local_database(c: DbConfig) -> bool {
    &&& c.host@ == "127.0.0.1"@
    &&& c.port == 3306
    &&& c.database@ == "doccraft_agent"@
    &&& c.user@ == "root"@
    &&& c.password@ == ""@
    &&& !c.tls
    &&& c.max_connections == 8
}

impl Default for DbConfig {
    fn default() -> (r: Self)
        ensures
            local_database(r),
    {
        DbConfig {
            host: String::from_str("127.0.0.1"),
            port: 3306,
            database: String::from_str("doccraft_agent"),
            user: String::from_str("root"),
            password: String::from_str(""),
            tls: false,
            max_connections: 8,
        }
    }
}

/// How the language model is reached and how much may be asked of it.
pub struct LlmConfig {
    pub base_url: String,
    pub api_key: String,
    pub model: String,
    pub context_limit: u32,
    pub model_context_limit: u32,
    pub max_output_tokens: u32,
    pub model_max_output: u32,
    pub safety_percent: u32,
    pub token_mode: String,
    pub token_count_url: String,
    pub output_parameter: String,
    pub reasoning: String,
    pub effort: String,
    pub reasoning_parameter: String,
    pub proxy_mode: String,
    pub proxy_url: String,
    pub proxy_user: String,
    pub proxy_password: String,
    pub ca_path: String,
    pub timeout_seconds: u64,
    pub retries: u32,
    pub concurrency: usize,
    pub rpm: u32,
    pub tpm: u32,
}

impl Clone for LlmConfig {
    fn clone(&self) -> (r: Self)
        ensures
            r == *self,
    {
        LlmConfig {
            base_url: self.base_url.clone(),
            api_key: self.api_key.clone(),
            model: self.model.clone(),
            context_limit: self.context_limit,
            model_context_limit: self.model_context_limit,
            max_output_tokens: self.max_output_tokens,
            model_max_output: self.model_max_output,
            safety_percent: self.safety_percent,
            token_mode: self.token_mode.clone(),
            token_count_url: self.token_count_url.clone(),
            output_parameter: self.output_parameter.clone(),
            reasoning: self.reasoning.clone(),
            effort: self.effort.clone(),
            reasoning_parameter: self.reasoning_parameter.clone(),
            proxy_mode: self.proxy_mode.clone(),
            proxy_url: self.proxy_url.clone(),
            proxy_user: self.proxy_user.clone(),
            proxy_password: self.proxy_password.clone(),
            ca_path: self.ca_path.clone(),
            timeout_seconds: self.timeout_seconds,
            retries: self.retries,
            concurrency: self.concurrency,
            rpm: self.rpm,
            tpm: self.tpm,
        }
    }
}

/// The language model of a new installation.
pub open spec fn local_model(c: LlmConfig) -> bool {
    &&& c.base_url@ == "http://127.0.0.1:8000/v1"@
    &&& c.api_key@ == ""@
    &&& c.model@ == ""@
    &&& c.context_limit == 200_000
    &&& c.model_context_limit == 200_000
    &&& c.max_output_tokens == 16384
    &&& c.model_max_output == 32768
    &&& c.safety_percent == 20
    &&& c.token_mode@ == "estimate"@
    &&& c.token_count_url@ == ""@
    &&& c.output_parameter@ == "max_completion_tokens"@
    &&& c.reasoning@ == "off"@
    &&& c.effort@ == "medium"@
    &&& c.reasoning_parameter@ == "reasoning_effort"@
    &&& c.proxy_mode@ == "none"@
    &&& c.proxy_url@ == ""@
    &&& c.proxy_user@ == ""@
    &&& c.proxy_password@ == ""@
    &&& c.ca_path@ == ""@
    &&& c.timeout_seconds == 180
    &&& c.retries == 3
    &&& c.concurrency == 2
    &&& c.rpm == 30
    &&& c.tpm == 300_000
}

impl Default for LlmConfig {
    fn default() -> (r: Self)
        ensures
            local_model(r),
    {
        LlmConfig {
            base_url: String::from_str("http://127.0.0.1:8000/v1"),
            api_key: String::from_str(""),
            model: String::from_str(""),
            context_limit: 200_000,
            model_context_limit: 200_000,
            max_output_tokens: 16384,
            model_max_output: 32768,
            safety_percent: 20,
            token_mode: String::from_str("estimate"),
            token_count_url: String::from_str(""),
            output_parameter: String::from_str("max_completion_tokens"),
            reasoning: String::from_str("off"),
            effort: String::from_str("medium"),
            reasoning_parameter: String::from_str("reasoning_effort"),
            proxy_mode: String::from_str("none"),
            proxy_url: String::from_str(""),
            proxy_user: String::from_str(""),
            proxy_password: String::from_str(""),
            ca_path: String::from_str(""),
            timeout_seconds: 180,
            retries: 3,
            concurrency: 2,
            rpm: 30,
            tpm: 300_000,
        }
    }
}

/// The settings of the application.
pub struct Settings {
    pub db: DbConfig,
    pub llm: LlmConfig,
    pub source_roots: Vec<String>,
    pub output_roots: Vec<String>,
    pub max_jobs: usize,
    pub max_file_bytes: u64,
    pub max_files: u64,
    pub retention_days: u32,
    pub cache_max_mb: u64,
}

impl Clone for Settings {
    fn clone(&self) -> (r: Self)
        ensures
            r.db == self.db,
            r.llm == self.llm,
            r.source_roots@ == self.source_roots@,
            r.output_roots@ == self.output_roots@,
            r.max_jobs == self.max_jobs,
            r.max_file_bytes == self.max_file_bytes,
            r.max_files == self.max_files,
            r.retention_days == self.retention_days,
            r.cache_max_mb == self.cache_max_mb,
    {
        Settings {
            db: self.db.clone(),
            llm: self.llm.clone(),
            source_roots: copy_texts(&self.source_roots),
            output_roots: copy_texts(&self.output_roots),
            max_jobs: self.max_jobs,
            max_file_bytes: self.max_file_bytes,
            max_files: self.max_files,
            retention_days: self.retention_days,
            cache_max_mb: self.cache_max_mb,
        }
    }
}

impl Default for Settings {
    fn default() -> (r: Self)
        ensures
            r.source_roots@.len() == 0,
            r.output_roots@.len() == 0,
            r.max_jobs == 2,
            r.max_file_bytes == 20 * 1024 * 1024,
            r.max_files == 100_000,
            r.retention_days == 30,
            r.cache_max_mb == 1024,
            local_database(r.db),
            local_model(r.llm),
    {
        Settings {
            db: DbConfig::default(),
            llm: LlmConfig::default(),
            source_roots: Vec::new(),
            output_roots: Vec::new(),
            max_jobs: 2,
            max_file_bytes: 20 * 1024 * 1024,
            max_files: 100_000,
            retention_days: 30,
            cache_max_mb: 1024,
        }
    }
}

/// A task: what to document, for whom, and within which limits. What it may cost
/// is kept by the application.
pub struct TaskConfig {
    pub id: String,
    pub name: String,
    pub sources: Vec<String>,
    pub target: String,
    pub direction: String,
    pub language: String,
    pub included: Vec<String>,
    pub exclude: Vec<String>,
    pub max_iterations: u32,
    pub max_diagrams: Option<u32>,
    pub max_seconds: u64,
    pub max_tokens: u64,
    pub preview_outline: bool,
}

impl Default for TaskConfig {
    fn default() -> (r: Self)
        ensures
            r.id@ == ""@,
            r.name@ == ""@,
            r.sources@.len() == 0,
            r.target@ == ""@,
            r.direction@ == ""@,
            r.language@ == "한국어"@,
            r.included@.len() == 0,
            r.exclude@.len() == 0,
            r.max_iterations == 3,
            r.max_diagrams is None,
            r.max_seconds == 7200,
            r.max_tokens == 2_000_000,
            !r.preview_outline,
    {
        TaskConfig {
            id: String::from_str(""),
            name: String::from_str(""),
            sources: Vec::new(),
            target: String::from_str(""),
            direction: String::from_str(""),
            language: String::from_str("한국어"),
            included: Vec::new(),
            exclude: Vec::new(),
            max_iterations: 3,
            max_diagrams: None,
            max_seconds: 7200,
            max_tokens: 2_000_000,
            preview_outline: false,
        }
    }
}

/// What a run was started with.
pub struct RunSnapshot {
    pub task: TaskConfig,
    pub settings: Settings,
    /// The hash of the target as it was, where there was one.
    pub original_hash: Option<String>,
}

/// A passage of source text, named by the hash of what it holds.
pub struct Evidence {
    pub id: String,
    pub path: String,
    pub start: u32,
    pub end: u32,
    pub content: String,
}

impl Clone for Evidence {
    fn clone(&self) -> (r: Self)
        ensures
            r == *self,
    {
        Evidence {
            id: self.id.clone(),
            path: self.path.clone(),
            start: self.start,
            end: self.end,
            content: self.content.clone(),
        }
    }
}

/// One section of a plan.
pub struct SectionPlan {
    pub id: String,
    pub title: String,
    pub query: String,
    pub reader_question: String,
    pub handoff: String,
    pub diagrams: Option<Vec<String>>,
    /// Reading prerequisites, as earlier zero-based section indices.
    pub depends_on: Vec<usize>,
    /// Source passages read before planning, kept for the section writer.
    pub evidence_ids: Vec<String>,
    pub owns_requirement_ids: Vec<String>,
    pub key_points: Vec<String>,
    pub out_of_scope: Vec<String>,
    /// The parts of the source that the section covers, by node key.
    pub branches: Vec<String>,
}

/// A part of the source that the document leaves out, and why.
pub struct BranchExclusion {
    pub branch: String,
    pub reason: String,
}

impl Clone for BranchExclusion {
    fn clone(&self) -> (r: Self)
        ensures
            r == *self,
    {
        BranchExclusion { branch: self.branch.clone(), reason: self.reason.clone() }
    }
}

/// The plan of a document.
pub struct Outline {
    pub sections: Vec<SectionPlan>,
    pub reader_goal: String,
    pub storyline: String,
    pub terminology: Vec<String>,
    pub requirements: Vec<Requirement>,
    pub revision: u32,
    pub excluded_branches: Vec<BranchExclusion>,
}

/// A question that the document owes an answer.
pub struct Requirement {
    pub id: String,
    pub question: String,
}

/// What a review of an outline found.
pub struct OutlineReview {
    pub issues: Vec<OutlineIssue>,
}

/// One fault of an outline.
pub struct OutlineIssue {
    pub severity: String,
    pub code: String,
    pub message: String,
    pub section_ids: Vec<String>,
    pub requirement_ids: Vec<String>,
    pub query: String,
}

/// One fault of a draft.
pub struct Issue {
    pub severity: String,
    pub section: usize,
    pub message: String,
    pub query: String,
}

/// What a review of a draft found.
pub struct Review {
    pub issues: Vec<Issue>,
    pub outline_issues: Vec<OutlineIssue>,
}

/// A written section with the passages that it may cite.
pub struct Section {
    pub title: String,
    pub markdown: String,
    pub evidence: Vec<Evidence>,
}

/// The value of a section of a plan.
pub struct SectionModel {
    pub id: Seq<char>,
    pub title: Seq<char>,
    pub query: Seq<char>,
    pub reader_question: Seq<char>,
    pub handoff: Seq<char>,
    pub diagrams: Option<Seq<Seq<char>>>,
    pub depends_on: Seq<usize>,
    pub evidence_ids: Seq<Seq<char>>,
    pub owns_requirement_ids: Seq<Seq<char>>,
    pub key_points: Seq<Seq<char>>,
    pub out_of_scope: Seq<Seq<char>>,
    pub branches: Seq<Seq<char>>,
}

impl View for SectionPlan {
    type V = SectionModel;

    open spec fn view(&self) -> SectionModel {
        SectionModel {
            id: self.id@,
            title: self.title@,
            query: self.query@,
            reader_question: self.reader_question@,
            handoff: self.handoff@,
            diagrams: match self.diagrams {
                Some(d) => Some(texts(d@)),
                None => None,
            },
            depends_on: self.depends_on@,
            evidence_ids: texts(self.evidence_ids@),
            owns_requirement_ids: texts(self.owns_requirement_ids@),
            key_points: texts(self.key_points@),
            out_of_scope: texts(self.out_of_scope@),
            branches: texts(self.branches@),
        }
    }
}

/// The values of a list of sections.
pub open spec fn section_models(v: Seq<SectionPlan>) -> Seq<SectionModel> {
    v.map_values(|s: SectionPlan| s@)
}

/// The value of an exclusion.
pub struct ExclusionModel {
    pub branch: Seq<char>,
    pub reason: Seq<char>,
}

impl View for BranchExclusion {
    type V = ExclusionModel;

    open spec fn view(&self) -> ExclusionModel {
        ExclusionModel { branch: self.branch@, reason: self.reason@ }
    }
}

/// The values of a list of exclusions.
pub open spec fn exclusion_models(v: Seq<BranchExclusion>) -> Seq<ExclusionModel> {
    v.map_values(|e: BranchExclusion| e@)
}

/// The value of a requirement.
pub struct RequirementModel {
    pub id: Seq<char>,
    pub question: Seq<char>,
}

impl View for Requirement {
    type V = RequirementModel;

    open spec fn view(&self) -> RequirementModel {
        RequirementModel { id: self.id@, question: self.question@ }
    }
}

/// The values of a list of requirements.
pub open spec fn requirement_models(v: Seq<Requirement>) -> Seq<RequirementModel> {
    v.map_values(|r: Requirement| r@)
}

/// The value of a plan.
pub struct OutlineModel {
    pub sections: Seq<SectionModel>,
    pub reader_goal: Seq<char>,
    pub storyline: Seq<char>,
    pub terminology: Seq<Seq<char>>,
    pub requirements: Seq<RequirementModel>,
    pub revision: u32,
    pub excluded_branches: Seq<ExclusionModel>,
}

impl View for Outline {
    type V = OutlineModel;

    open spec fn view(&self) -> OutlineModel {
        OutlineModel {
            sections: section_models(self.sections@),
            reader_goal: self.reader_goal@,
            storyline: self.storyline@,
            terminology: texts(self.terminology@),
            requirements: requirement_models(self.requirements@),
            revision: self.revision,
            excluded_branches: exclusion_models(self.excluded_branches@),
        }
    }
}

} // verus!
