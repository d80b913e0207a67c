//! Workspaces: where a workspace goes, the directories it is made of and
//! the files its templates write.
use vstd::prelude::*;
use vstd::utf8::encode_utf8;

use crate::cli::{CliError, CliErrorKind, CommandResult};
use crate::filesystem::FileSystem;
use crate::paths::{join, join_path, join_path2};
use crate::text::{concat, concat3, string_from_str};
use crate::topic_store::utf8_bytes;

verus! {

/// A workspace, known by its root directory.
pub struct Workspace {
    pub root: String,
}

impl Workspace {
    pub fn new(root: String) -> (w: Self)
        ensures
            w.root@ == root@,
    {
        Workspace { root }
    }

    pub fn root(&self) -> (r: &str)
        ensures
            r@ == self.root@,
    {
        self.root.as_str()
    }
}

/// The user's home directory (`dirs::home_dir`), as text. It comes from
/// the environment, so nothing is stated of it.
#[verifier::external_body]
fn home_directory() -> (r: Option<String>) {
    dirs::home_dir().map(|p| p.to_string_lossy().into_owned())
}

/// Finds where a workspace goes.
pub struct WorkspaceResolver;

pub open spec fn no_home_message() -> Seq<char> {
    "Unable to determine user home directory"@
}

impl WorkspaceResolver {
    /// The workspace `workspace_name` under `path`, else under the home
    /// directory `home`.
    pub fn resolve_with_home(workspace_name: &str, path: Option<&str>, home: Option<String>) -> (r: Result<
        Workspace,
        CliError,
    >)
        ensures
            match path {
                Some(p) => r matches Ok(w) && w.root@ == join(p@, workspace_name@),
                None => match home {
                    Some(h) => r matches Ok(w) && w.root@ == join(h@, workspace_name@),
                    None => r matches Err(e) && e@ == (CliErrorKind::UnexpectedError, no_home_message()),
                },
            },
    {
        match path {
            Some(p) => Ok(Workspace::new(join_path(p, workspace_name))),
            None => match home {
                Some(h) => Ok(Workspace::new(join_path(h.as_str(), workspace_name))),
                None => Err(CliError::UnexpectedError(string_from_str("Unable to determine user home directory"))),
            },
        }
    }

    /// The workspace `workspace_name` under `path`, else under the user's
    /// home directory.
    pub fn resolve(workspace_name: &str, path: Option<&str>) -> (r: Result<Workspace, CliError>)
        ensures
            path matches Some(p) ==> (r matches Ok(w) && w.root@ == join(p@, workspace_name@)),
            path is None ==> match r {
                Ok(w) => exists|h: Seq<char>| #[trigger] join(h, workspace_name@) == w.root@,
                Err(e) => e@ == (CliErrorKind::UnexpectedError, no_home_message()),
            },
    {
        match path {
            Some(p) => Self::resolve_with_home(workspace_name, Some(p), None),
            None => {
                let home = home_directory();
                let ghost hv = home;
                let r = Self::resolve_with_home(workspace_name, None, home);
                proof {
                    if hv is Some {
                        assert(join(hv->0@, workspace_name@) == join(hv->0@, workspace_name@));
                    }
                }
                r
            },
        }
    }
}

/// The message for a workspace that is already there.
pub open spec fn workspace_exists_message(root: Seq<char>) -> Seq<char> {
    "Workspace '"@ + root + "' already exists."@
}

/// Checks that a workspace can be created.
pub struct WorkspaceValidator;

impl WorkspaceValidator {
    /// A workspace whose root already exists is refused.
    pub fn validate<F: FileSystem>(file_system: &F, workspace: &Workspace) -> (r: Result<(), CliError>)
        requires
            file_system.inv(),
        ensures
            r is Ok <==> !(file_system.files().contains_key(workspace.root@) || file_system.directories().contains(
                workspace.root@,
            )),
            r matches Err(e) ==> e@ == (CliErrorKind::InvalidArguments, workspace_exists_message(workspace.root@)),
    {
        if file_system.path_exists(workspace.root()) {
            return Err(CliError::InvalidArguments(concat3("Workspace '", workspace.root(), "' already exists.")));
        }
        Ok(())
    }
}

/// The directories of a workspace under `root`, in the order they are made.
pub open spec fn workspace_directories(root: Seq<char>) -> Seq<Seq<char>> {
    seq![
        root,
        join(root, "config"@),
        join(root, "data"@),
        join(join(root, "data"@), "broker"@),
        join(join(root, "data"@), "topics"@),
        join(join(root, "data"@), "consumer-groups"@),
        join(root, "logs"@),
        join(root, "plugins"@),
        join(root, "temp"@),
    ]
}

/// Makes the directories of a workspace.
pub struct Directory;

impl Directory {
    /// Creates every directory of the workspace, in order, stopping at the
    /// first failure.
    pub fn create<F: FileSystem>(file_system: &mut F, workspace: &Workspace) -> (r: Result<(), CliError>)
        requires
            old(file_system).inv(),
        ensures
            final(file_system).inv(),
            final(file_system).files() == old(file_system).files(),
            old(file_system).directories().subset_of(final(file_system).directories()),
            r is Ok ==> forall|i: int|
                0 <= i < 9 ==> final(file_system).directories().contains(
                    #[trigger] workspace_directories(workspace.root@)[i],
                ),
            r matches Err(e) ==> e@.0 == CliErrorKind::UnexpectedError,
    {
        let root = workspace.root();
        let mut paths: Vec<String> = Vec::new();
        paths.push(string_from_str(root));
        paths.push(join_path(root, "config"));
        paths.push(join_path(root, "data"));
        paths.push(join_path2(root, "data", "broker"));
        paths.push(join_path2(root, "data", "topics"));
        paths.push(join_path2(root, "data", "consumer-groups"));
        paths.push(join_path(root, "logs"));
        paths.push(join_path(root, "plugins"));
        paths.push(join_path(root, "temp"));
        let ghost wanted = workspace_directories(workspace.root@);
        proof {
            assert forall|i: int| 0 <= i < 9 implies #[trigger] paths@[i]@ == wanted[i] by {}
        }
        let mut k: usize = 0;
        while k < paths.len()
            invariant
                file_system.inv(),
                paths@.len() == 9,
                k <= 9,
                wanted == workspace_directories(workspace.root@),
                forall|i: int| 0 <= i < 9 ==> #[trigger] paths@[i]@ == wanted[i],
                file_system.files() == old(file_system).files(),
                old(file_system).directories().subset_of(file_system.directories()),
                forall|i: int| 0 <= i < k ==> file_system.directories().contains(#[trigger] wanted[i]),
            decreases 9 - k,
        {
            let ghost before = file_system.directories();
            match file_system.create_directory(paths[k].as_str()) {
                Ok(()) => {},
                Err(e) => return Err(CliError::UnexpectedError(e.message)),
            }
            proof {
                assert forall|i: int| 0 <= i < k + 1 implies file_system.directories().contains(#[trigger] wanted[i]) by {
                    if i < k {
                        assert(before.contains(wanted[i]));
                    }
                }
            }
            k = k + 1;
        }
        Ok(())
    }
}

/// Writes a file of a new workspace.
pub trait TemplateGenerator {
    /// What a successful run makes of the files `before` of a workspace at
    /// `root`: the files `after`.
    spec fn writes(&self, root: Seq<char>, before: Map<Seq<char>, Seq<u8>>, after: Map<Seq<char>, Seq<u8>>) -> bool;

    /// `e` is an error a run on the files `before` of a workspace at `root`
    /// may end with.
    spec fn refuses(&self, root: Seq<char>, before: Map<Seq<char>, Seq<u8>>, e: CliError) -> bool;

    fn generate<F: FileSystem>(&self, file_system: &mut F, workspace: &Workspace) -> (r: Result<(), CliError>)
        requires
            old(file_system).inv(),
        ensures
            final(file_system).inv(),
            old(file_system).directories().subset_of(final(file_system).directories()),
            r is Ok ==> self.writes(workspace.root@, old(file_system).files(), final(file_system).files()),
            r matches Err(e) ==> self.refuses(workspace.root@, old(file_system).files(), e),
    ;
}

/// The files go through `states`, one generator of `generators` after the
/// other, each writing what it writes.
pub open spec fn ran_in_order<G: TemplateGenerator>(
    generators: Seq<G>,
    root: Seq<char>,
    states: Seq<Map<Seq<char>, Seq<u8>>>,
) -> bool {
    &&& states.len() == generators.len() + 1
    &&& forall|i: int| 0 <= i < generators.len() ==> #[trigger] generators[i].writes(root, states[i], states[i + 1])
}

/// The broker's configuration file of a new workspace.
pub open spec fn broker_template() -> Seq<char> {
    "[broker]\nhost = \"127.0.0.1\"\nport = 9092\n\n[storage]\ndata_directory = \"data/broker\"\ntopics_directory = \"data/topics\"\nconsumer_group_directory = \"data/consumer-groups\"\nsegment_max_bytes = 1048576\n\n[network]\nmax_frame_bytes = 1048576\n\n[logging]\nlevel = \"info\"\nfile = \"logs/broker.log\"\n"@
}

/// Writes `config/broker.toml` with the broker's default settings.
pub struct BrokerTemplateGenerator;

impl TemplateGenerator for BrokerTemplateGenerator {
    open spec fn writes(&self, root: Seq<char>, before: Map<Seq<char>, Seq<u8>>, after: Map<Seq<char>, Seq<u8>>) -> bool {
        after == before.insert(join(join(root, "config"@), "broker.toml"@), encode_utf8(broker_template()))
    }

    open spec fn refuses(&self, root: Seq<char>, before: Map<Seq<char>, Seq<u8>>, e: CliError) -> bool {
        e@.0 == CliErrorKind::UnexpectedError
    }

    fn generate<F: FileSystem>(&self, file_system: &mut F, workspace: &Workspace) -> (r: Result<(), CliError>)
        ensures
            r is Ok ==> final(file_system).files() == old(file_system).files().insert(
                join(join(workspace.root@, "config"@), "broker.toml"@),
                encode_utf8(broker_template()),
            ),
            r matches Err(e) ==> e@.0 == CliErrorKind::UnexpectedError,
    {
        let path = join_path2(workspace.root(), "config", "broker.toml");
        let text = "[broker]\nhost = \"127.0.0.1\"\nport = 9092\n\n[storage]\ndata_directory = \"data/broker\"\ntopics_directory = \"data/topics\"\nconsumer_group_directory = \"data/consumer-groups\"\nsegment_max_bytes = 1048576\n\n[network]\nmax_frame_bytes = 1048576\n\n[logging]\nlevel = \"info\"\nfile = \"logs/broker.log\"\n";
        let bytes = utf8_bytes(text);
        match file_system.write_file(path.as_str(), bytes.as_slice()) {
            Ok(()) => Ok(()),
            Err(e) => Err(CliError::UnexpectedError(e.message)),
        }
    }
}

/// Runs the template generators of a workspace, in order.
pub struct WorkspaceTemplateGenerator<G: TemplateGenerator> {
    pub generators: Vec<G>,
}

impl<G: TemplateGenerator> WorkspaceTemplateGenerator<G> {
    pub fn new(generators: Vec<G>) -> (w: Self)
        ensures
            w.generators == generators,
    {
        WorkspaceTemplateGenerator { generators }
    }

    /// Runs every generator, stopping at the first failure.
    pub fn generate<F: FileSystem>(&self, file_system: &mut F, workspace: &Workspace) -> (r: Result<(), CliError>)
        requires
            old(file_system).inv(),
        ensures
            final(file_system).inv(),
            old(file_system).directories().subset_of(final(file_system).directories()),
            self.generators@.len() == 0 ==> r is Ok && *final(file_system) == *old(file_system),
            r is Ok ==> exists|states: Seq<Map<Seq<char>, Seq<u8>>>|
                #[trigger] ran_in_order(self.generators@, workspace.root@, states) && states[0] == old(file_system).files()
                    && states.last() == final(file_system).files(),
            r matches Err(e) ==> exists|k: int, states: Seq<Map<Seq<char>, Seq<u8>>>|
                0 <= k < self.generators@.len() && #[trigger] ran_in_order(self.generators@.take(k), workspace.root@, states)
                    && states[0] == old(file_system).files() && self.generators@[k].refuses(
                    workspace.root@,
                    states.last(),
                    e,
                ),
    {
        let mut k: usize = 0;
        let ghost mut states: Seq<Map<Seq<char>, Seq<u8>>> = seq![file_system.files()];
        while k < self.generators.len()
            invariant
                file_system.inv(),
                old(file_system).directories().subset_of(file_system.directories()),
                k <= self.generators@.len(),
                self.generators@.len() == 0 ==> *file_system == *old(file_system),
                states.len() == k + 1,
                states[0] == old(file_system).files(),
                states.last() == file_system.files(),
                forall|i: int|
                    0 <= i < k ==> #[trigger] self.generators@[i].writes(workspace.root@, states[i], states[i + 1]),
            decreases self.generators@.len() - k,
        {
            match self.generators[k].generate(file_system, workspace) {
                Ok(()) => {},
                Err(e) => {
                    proof {
                        let gs = self.generators@.take(k as int);
                        assert forall|i: int| 0 <= i < gs.len() implies #[trigger] gs[i].writes(
                            workspace.root@,
                            states[i],
                            states[i + 1],
                        ) by {
                            assert(gs[i] == self.generators@[i]);
                        }
                        assert(ran_in_order(gs, workspace.root@, states));
                    }
                    return Err(e);
                },
            }
            proof {
                let before = states;
                states = states.push(file_system.files());
                assert forall|i: int| 0 <= i < k + 1 implies #[trigger] self.generators@[i].writes(
                    workspace.root@,
                    states[i],
                    states[i + 1],
                ) by {
                    if i < k {
                        assert(states[i] == before[i] && states[i + 1] == before[i + 1]);
                    }
                }
            }
            k = k + 1;
        }
        proof {
            assert(ran_in_order(self.generators@, workspace.root@, states));
        }
        Ok(())
    }
}

/// The message of a workspace made at `root`.
pub open spec fn initialized_message(root: Seq<char>) -> Seq<char> {
    "Workspace initialized at "@ + root
}

/// Makes a workspace: finds where it goes, checks it is not there yet,
/// makes its directories and writes its templates, then records it as the
/// active workspace.
pub struct WorkspaceInitializer<G: TemplateGenerator> {
    pub workspace_name: String,
    pub path: Option<String>,
    pub template_generator: WorkspaceTemplateGenerator<G>,
}

impl<G: TemplateGenerator> WorkspaceInitializer<G> {
    pub fn new(workspace_name: String, path: Option<String>, template_generator: WorkspaceTemplateGenerator<G>) -> (w:
        Self)
        ensures
            w.workspace_name@ == workspace_name@,
            w.path == path,
            w.template_generator == template_generator,
    {
        WorkspaceInitializer { workspace_name, path, template_generator }
    }

    /// Makes the workspace, with `home` as the home directory. Failing to
    /// record the active workspace is not an error.
    pub fn initialize_with_home<F: FileSystem>(&self, file_system: &mut F, home: Option<String>) -> (r: Result<
        CommandResult,
        CliError,
    >)
        requires
            old(file_system).inv(),
        ensures
            final(file_system).inv(),
            self.path is None && home is None ==> (r matches Err(e) && e@ == (
                CliErrorKind::UnexpectedError,
                no_home_message(),
            ) && *final(file_system) == *old(file_system)),
            ({
                let root = match self.path {
                    Some(p) => join(p@, self.workspace_name@),
                    None => join(home->0@, self.workspace_name@),
                };
                (self.path is Some || home is Some) && (old(file_system).files().contains_key(root)
                    || old(file_system).directories().contains(root)) ==> (r matches Err(e) && e@ == (
                    CliErrorKind::InvalidArguments,
                    workspace_exists_message(root),
                ) && *final(file_system) == *old(file_system))
            }),
            r matches Ok(res) ==> res.success && res.exit_code == 0 && exists|root: Seq<char>|
                {
                    &&& #[trigger] initialized_message(root) == res.message@
                    &&& root == match self.path {
                        Some(p) => join(p@, self.workspace_name@),
                        None => join(home->0@, self.workspace_name@),
                    }
                    &&& !(old(file_system).files().contains_key(root) || old(file_system).directories().contains(root))
                    &&& forall|i: int| 0 <= i < 9 ==> final(file_system).directories().contains(
                        #[trigger] workspace_directories(root)[i],
                    )
                },
    {
        let path = match &self.path {
            Some(p) => Some(p.as_str()),
            None => None,
        };
        let home_copy = match &home {
            Some(h) => Some(string_from_str(h.as_str())),
            None => None,
        };
        let workspace = match WorkspaceResolver::resolve_with_home(self.workspace_name.as_str(), path, home_copy) {
            Ok(w) => w,
            Err(e) => return Err(e),
        };
        match WorkspaceValidator::validate(file_system, &workspace) {
            Ok(()) => {},
            Err(e) => return Err(e),
        }
        match Directory::create(file_system, &workspace) {
            Ok(()) => {},
            Err(e) => return Err(e),
        }
        let ghost made = file_system.directories();
        match self.template_generator.generate(file_system, &workspace) {
            Ok(()) => {},
            Err(e) => return Err(e),
        }
        let ghost after_templates = file_system.directories();
        match home {
            Some(h) => {
                let file = join_path(h.as_str(), ".es_workspace");
                let bytes = utf8_bytes(workspace.root());
                let _ = file_system.write_file(file.as_str(), bytes.as_slice());
            },
            None => {},
        }
        let message = concat("Workspace initialized at ", workspace.root());
        proof {
            assert(initialized_message(workspace.root@) == message@);
            assert forall|i: int| 0 <= i < 9 implies file_system.directories().contains(
                #[trigger] workspace_directories(workspace.root@)[i],
            ) by {
                assert(made.contains(workspace_directories(workspace.root@)[i]));
                assert(after_templates.contains(workspace_directories(workspace.root@)[i]));
            }
        }
        Ok(CommandResult { success: true, exit_code: 0, message })
    }

    /// Makes the workspace, the user's home directory giving its place when
    /// no path is set.
    pub fn initialize<F: FileSystem>(&self, file_system: &mut F) -> (r: Result<CommandResult, CliError>)
        requires
            old(file_system).inv(),
        ensures
            final(file_system).inv(),
            self.path is Some && (old(file_system).files().contains_key(join(self.path->0@, self.workspace_name@))
                || old(file_system).directories().contains(join(self.path->0@, self.workspace_name@))) ==> (r matches Err(
                e,
            ) && e@ == (CliErrorKind::InvalidArguments, workspace_exists_message(join(self.path->0@, self.workspace_name@)))
                && *final(file_system) == *old(file_system)),
            r matches Ok(res) ==> res.success && res.exit_code == 0 && exists|root: Seq<char>|
                {
                    &&& #[trigger] initialized_message(root) == res.message@
                    &&& (self.path matches Some(p) ==> root == join(p@, self.workspace_name@))
                    &&& !(old(file_system).files().contains_key(root) || old(file_system).directories().contains(root))
                    &&& forall|i: int| 0 <= i < 9 ==> final(file_system).directories().contains(
                        #[trigger] workspace_directories(root)[i],
                    )
                },
    {
        let home = home_directory();
        self.initialize_with_home(file_system, home)
    }
}

} // verus!
