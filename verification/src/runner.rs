//! Which programs a benchmark runs, and what is asked of them.
use crate::text;
use vstd::prelude::*;
use vstd::string::StringExecFns;

verus! {

/// The implementations that can be compared.
#[derive(Debug, Clone, Copy, PartialEq, Eq, Structural)]
pub enum Implementation {
    Go,
    RocNea,
    RustNea,
    RustTokio,
}

impl Implementation {
    pub open spec fn name(self) -> Seq<char> {
        match self {
            Implementation::Go => "go"@,
            Implementation::RocNea => "roc-nea"@,
            Implementation::RustNea => "rust-nea"@,
            Implementation::RustTokio => "rust-tokio"@,
        }
    }

    /// The directory that the programs of an implementation are in.
    pub open spec fn directory(self) -> Seq<char> {
        match self {
            Implementation::Go => "benchmarks/go/"@,
            Implementation::RocNea => "benchmarks/roc-nea/"@,
            Implementation::RustNea => "benchmarks/rust-nea/target/release/"@,
            Implementation::RustTokio => "benchmarks/rust-tokio/target/release/"@,
        }
    }

    /// The implementation with a name.
    pub fn from_name(name: &str) -> (implementation: Option<Self>)
        ensures
            match implementation {
                Some(implementation) => implementation.name() == name@,
                None => forall|other: Implementation| #[trigger] other.name() != name@,
            },
    {
        if text::same_text(name, "go") {
            Some(Implementation::Go)
        } else if text::same_text(name, "roc-nea") {
            Some(Implementation::RocNea)
        } else if text::same_text(name, "rust-nea") {
            Some(Implementation::RustNea)
        } else if text::same_text(name, "rust-tokio") {
            Some(Implementation::RustTokio)
        } else {
            None
        }
    }

    pub fn as_name(self) -> (name: &'static str)
        ensures
            name@ == self.name(),
    {
        match self {
            Implementation::Go => "go",
            Implementation::RocNea => "roc-nea",
            Implementation::RustNea => "rust-nea",
            Implementation::RustTokio => "rust-tokio",
        }
    }

    /// The program of an example.
    pub fn path(self, example: &str) -> (path: String)
        ensures
            path@ == self.directory() + example@,
    {
        let mut path = String::new();
        match self {
            Implementation::Go => path.append("benchmarks/go/"),
            Implementation::RocNea => path.append("benchmarks/roc-nea/"),
            Implementation::RustNea => path.append("benchmarks/rust-nea/target/release/"),
            Implementation::RustTokio => path.append("benchmarks/rust-tokio/target/release/"),
        }
        path.append(example);
        assert(path@ =~= self.directory() + example@);
        path
    }

    /// The file that the result of a benchmark goes to.
    pub fn result_path(self, example: &str) -> (path: String)
        ensures
            path@ == "benchmarks/"@ + self.name() + "-"@ + example@ + ".json"@,
    {
        let mut path = String::new();
        path.append("benchmarks/");
        path.append(self.as_name());
        path.append("-");
        path.append(example);
        path.append(".json");
        assert(path@ =~= "benchmarks/"@ + self.name() + "-"@ + example@ + ".json"@);
        path
    }
}

/// The file with the requests of an example.
pub fn request_file(example: &str) -> (path: String)
    ensures
        path@ == "benchmarks/"@ + example@ + ".txt"@,
{
    let mut path = String::new();
    path.append("benchmarks/");
    path.append(example);
    path.append(".txt");
    assert(path@ =~= "benchmarks/"@ + example@ + ".txt"@);
    path
}

/// The texts of a list of arguments.
pub open spec fn argument_texts(arguments: Seq<String>) -> Seq<Seq<char>> {
    arguments.map_values(|argument: String| argument@)
}

/// What the load generator is called with: four clients that send ten thousand requests each, in
/// random order, from the file of the example.
pub fn siege_arguments(example: &str) -> (arguments: Vec<String>)
    ensures
        argument_texts(arguments@) == seq![
            "-j"@,
            "-c"@,
            "4"@,
            "-r"@,
            "10000"@,
            "-i"@,
            "-f"@,
            "benchmarks/"@ + example@ + ".txt"@,
        ],
{
    let mut arguments: Vec<String> = Vec::new();
    arguments.push("-j".to_owned());
    arguments.push("-c".to_owned());
    arguments.push("4".to_owned());
    arguments.push("-r".to_owned());
    arguments.push("10000".to_owned());
    arguments.push("-i".to_owned());
    arguments.push("-f".to_owned());
    arguments.push(request_file(example));
    assert(argument_texts(arguments@) =~= seq![
        "-j"@,
        "-c"@,
        "4"@,
        "-r"@,
        "10000"@,
        "-i"@,
        "-f"@,
        "benchmarks/"@ + example@ + ".txt"@,
    ]);
    arguments
}

/// Whether a run of the load generator went well.
pub fn siege_succeeded(code: Option<i32>) -> (result: bool)
    ensures
        result == (code == Some(0i32)),
{
    match code {
        Some(code) => code == 0,
        None => false,
    }
}

/// The programs of an implementation are in the directory of its name; those that cargo builds are
/// in the directory for releases below it. No two implementations share a name.
pub proof fn law_directories_are_named_after_implementations(
    implementation: Implementation,
    other: Implementation,
)
    ensures
        ({
            let place = "benchmarks"@ + seq!['/'] + implementation.name() + seq!['/'];
            match implementation {
                Implementation::Go | Implementation::RocNea => implementation.directory() == place,
                Implementation::RustNea | Implementation::RustTokio => implementation.directory()
                    == place + "target"@ + seq!['/'] + "release"@ + seq!['/'],
            }
        }),
        implementation != other ==> implementation.name() != other.name(),
        implementation.name() == (match implementation {
            Implementation::Go => seq!['g', 'o'],
            Implementation::RocNea => seq!['r', 'o', 'c', '-', 'n', 'e', 'a'],
            Implementation::RustNea => seq!['r', 'u', 's', 't', '-', 'n', 'e', 'a'],
            Implementation::RustTokio => seq!['r', 'u', 's', 't', '-', 't', 'o', 'k', 'i', 'o'],
        }),
{
    reveal_strlit("benchmarks");
    reveal_strlit("target");
    reveal_strlit("release");
    reveal_strlit("go");
    reveal_strlit("roc-nea");
    reveal_strlit("rust-nea");
    reveal_strlit("rust-tokio");
    reveal_strlit("benchmarks/go/");
    reveal_strlit("benchmarks/roc-nea/");
    reveal_strlit("benchmarks/rust-nea/target/release/");
    reveal_strlit("benchmarks/rust-tokio/target/release/");
    let place = "benchmarks"@ + seq!['/'] + implementation.name() + seq!['/'];
    match implementation {
        Implementation::Go | Implementation::RocNea => {
            assert(implementation.directory() =~= place);
        },
        Implementation::RustNea | Implementation::RustTokio => {
            assert(implementation.directory() =~= place + "target"@ + seq!['/'] + "release"@ + seq![
                '/',
            ]);
        },
    }
    assert("go"@ =~= seq!['g', 'o']);
    assert("roc-nea"@ =~= seq!['r', 'o', 'c', '-', 'n', 'e', 'a']);
    assert("rust-nea"@ =~= seq!['r', 'u', 's', 't', '-', 'n', 'e', 'a']);
    assert("rust-tokio"@ =~= seq!['r', 'u', 's', 't', '-', 't', 'o', 'k', 'i', 'o']);
}

} // verus!
