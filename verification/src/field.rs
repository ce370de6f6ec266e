//! Which walk over the thermal grid is active. Every backend computes the
//! same cell with the same formula; they differ only in how the rows are
//! shared out, so comparing them measures parallelism and not the model.

use vstd::prelude::*;
use vstd::string::*;

verus! {

/// The backend that is running; cycled at run time with a key.
#[derive(Clone, Copy, PartialEq, Eq, Debug, Structural)]
pub enum BackendKind {
    Serial,
    Rayon,
    Gpu,
}

impl Default for BackendKind {
    fn default() -> (k: Self)
        ensures
            k == BackendKind::Serial,
    {
        BackendKind::Serial
    }
}

/// The backend that comes after `k` in the cycle.
pub open spec fn following_backend(k: BackendKind) -> BackendKind {
    match k {
        BackendKind::Serial => BackendKind::Rayon,
        BackendKind::Rayon => BackendKind::Gpu,
        BackendKind::Gpu => BackendKind::Serial,
    }
}

/// The backend named `name` on the command line, if any.
pub open spec fn backend_named(name: Seq<char>) -> Option<BackendKind> {
    if name == "serial"@ {
        Some(BackendKind::Serial)
    } else if name == "rayon"@ {
        Some(BackendKind::Rayon)
    } else if name == "gpu"@ {
        Some(BackendKind::Gpu)
    } else {
        None
    }
}

/// What a scan of the command line for `--backend <name>` settles on, and
/// the names it turned down on the way, in order.
///
/// The first `--backend` followed by a known name wins; an unknown name is
/// turned down and the scan goes on after it; a `--backend` with nothing
/// after it ends the scan. Without a winner the default backend is used.
pub open spec fn backend_choice(args: Seq<Seq<char>>) -> (BackendKind, Seq<Seq<char>>)
    decreases args.len(),
{
    if args.len() == 0 {
        (BackendKind::Serial, Seq::empty())
    } else if args[0] != "--backend"@ {
        backend_choice(args.drop_first())
    } else if args.len() == 1 {
        (BackendKind::Serial, Seq::empty())
    } else {
        match backend_named(args[1]) {
            Some(k) => (k, Seq::empty()),
            None => {
                let rest = backend_choice(args.subrange(2, args.len() as int));
                (rest.0, seq![args[1]] + rest.1)
            },
        }
    }
}

/// The characters of every string of `v`.
pub open spec fn strings_view(v: Seq<String>) -> Seq<Seq<char>> {
    v.map_values(|s: String| s@)
}

impl BackendKind {
    pub fn next(self) -> (k: Self)
        ensures
            k == following_backend(self),
    {
        match self {
            BackendKind::Serial => BackendKind::Rayon,
            BackendKind::Rayon => BackendKind::Gpu,
            BackendKind::Gpu => BackendKind::Serial,
        }
    }

    /// The backend with the given name: `serial`, `rayon` or `gpu`.
    pub fn parse(name: &str) -> (k: Option<Self>)
        ensures
            k == backend_named(name@),
    {
        let owned = name.to_owned();
        if owned == "serial".to_owned() {
            Some(BackendKind::Serial)
        } else if owned == "rayon".to_owned() {
            Some(BackendKind::Rayon)
        } else if owned == "gpu".to_owned() {
            Some(BackendKind::Gpu)
        } else {
            None
        }
    }

    /// Initial backend, from `--backend <serial|rayon|gpu>` among `args` (the
    /// command line without the program name). Returns it together with the
    /// unknown names that were turned down, for the caller to report.
    pub fn from_args(args: &Vec<String>) -> (r: (Self, Vec<String>))
        ensures
            (r.0, strings_view(r.1@)) == backend_choice(strings_view(args@)),
    {
        let n = args.len();
        let mut rejected: Vec<String> = Vec::new();
        let mut i: usize = 0;
        let ghost all = strings_view(args@);
        proof {
            assert(all.subrange(0, n as int) =~= all);
            assert(strings_view(rejected@) + backend_choice(all).1 =~= backend_choice(all).1);
        }
        while i < n
            invariant
                n == args@.len(),
                all == strings_view(args@),
                i <= n,
                ({
                    let rest = backend_choice(all.subrange(i as int, n as int));
                    backend_choice(all) == (rest.0, strings_view(rejected@) + rest.1)
                }),
            decreases n - i,
        {
            let ghost tail = all.subrange(i as int, n as int);
            assert(tail[0] == args@[i as int]@);
            if args[i] != "--backend".to_owned() {
                proof {
                    assert(tail.drop_first() =~= all.subrange(i + 1, n as int));
                }
                i = i + 1;
                continue;
            }
            if i + 1 >= n {
                proof {
                    assert(strings_view(rejected@) + Seq::<Seq<char>>::empty() =~= strings_view(
                        rejected@,
                    ));
                }
                return (BackendKind::Serial, rejected);
            }
            assert(tail[1] == args@[i + 1]@);
            match BackendKind::parse(args[i + 1].as_str()) {
                Some(kind) => {
                    proof {
                        assert(strings_view(rejected@) + Seq::<Seq<char>>::empty()
                            =~= strings_view(rejected@));
                    }
                    return (kind, rejected);
                },
                None => {
                    let ghost before = strings_view(rejected@);
                    rejected.push(args[i + 1].clone());
                    proof {
                        assert(tail.subrange(2, tail.len() as int) =~= all.subrange(
                            i + 2,
                            n as int,
                        ));
                        assert(strings_view(rejected@) =~= before.push(args@[i + 1]@));
                        let rest = backend_choice(all.subrange(i + 2, n as int));
                        assert(before + (seq![args@[i + 1]@] + rest.1) =~= strings_view(
                            rejected@,
                        ) + rest.1);
                    }
                    i = i + 2;
                },
            }
        }
        proof {
            assert(all.subrange(n as int, n as int) =~= Seq::<Seq<char>>::empty());
            assert(strings_view(rejected@) + Seq::<Seq<char>>::empty() =~= strings_view(
                rejected@,
            ));
        }
        (BackendKind::Serial, rejected)
    }
}

/// The reference backend: one thread walking the grid row by row.
#[derive(Clone, Copy, Debug, Default)]
pub struct SerialBackend;

impl SerialBackend {
    pub fn name(&self) -> (s: &'static str)
        ensures
            s@ == "serial"@,
    {
        "serial"
    }
}

/// The parallel CPU backend: the rows are shared out between threads.
#[derive(Clone, Copy, Debug, Default)]
pub struct RayonBackend;

impl RayonBackend {
    pub fn name(&self) -> (s: &'static str)
        ensures
            s@ == "rayon"@,
    {
        "rayon"
    }
}

/// Three presses of the cycling key come back to the backend one started on,
/// having visited the other two on the way.
pub proof fn lemma_backend_cycle(k: BackendKind)
    ensures
        following_backend(k) != k,
        following_backend(following_backend(k)) != k,
        following_backend(following_backend(k)) != following_backend(k),
        following_backend(following_backend(following_backend(k))) == k,
{
}

/// Every backend is found again by parsing the name it is known by.
pub proof fn lemma_backend_names_round_trip()
    ensures
        backend_named("serial"@) == Some(BackendKind::Serial),
        backend_named("rayon"@) == Some(BackendKind::Rayon),
        backend_named("gpu"@) == Some(BackendKind::Gpu),
{
    reveal_strlit("serial");
    reveal_strlit("rayon");
    reveal_strlit("gpu");
    assert("rayon"@[0] != "serial"@[0]);
    assert("gpu"@[0] != "serial"@[0]);
    assert("gpu"@[0] != "rayon"@[0]);
}

/// Before any `--backend`, the scan only walks past the arguments: what it
/// settles on for `prefix + args` is what it settles on for `args`.
proof fn lemma_backend_scan_skips_other_flags(prefix: Seq<Seq<char>>, args: Seq<Seq<char>>)
    requires
        forall|i: int| 0 <= i < prefix.len() ==> #[trigger] prefix[i] != "--backend"@,
    ensures
        backend_choice(prefix + args) == backend_choice(args),
    decreases prefix.len(),
{
    if prefix.len() > 0 {
        assert((prefix + args)[0] == prefix[0]);
        assert((prefix + args).drop_first() =~= prefix.drop_first() + args);
        assert forall|i: int| 0 <= i < prefix.drop_first().len() implies #[trigger] prefix.drop_first()[i]
            != "--backend"@ by {
            assert(prefix.drop_first()[i] == prefix[i + 1]);
        }
        lemma_backend_scan_skips_other_flags(prefix.drop_first(), args);
    } else {
        assert(prefix + args =~= args);
    }
}

/// The first `--backend` followed by a known name wins, whatever follows it
/// and whatever other arguments come before it, and nothing is reported as
/// turned down.
pub proof fn lemma_first_known_backend_wins(
    prefix: Seq<Seq<char>>,
    rest: Seq<Seq<char>>,
)
    requires
        forall|i: int| 0 <= i < prefix.len() ==> #[trigger] prefix[i] != "--backend"@,
    ensures
        backend_choice(prefix + (seq!["--backend"@, "serial"@] + rest)) == (
            BackendKind::Serial,
            Seq::<Seq<char>>::empty(),
        ),
        backend_choice(prefix + (seq!["--backend"@, "rayon"@] + rest)) == (
            BackendKind::Rayon,
            Seq::<Seq<char>>::empty(),
        ),
        backend_choice(prefix + (seq!["--backend"@, "gpu"@] + rest)) == (
            BackendKind::Gpu,
            Seq::<Seq<char>>::empty(),
        ),
{
    lemma_backend_names_round_trip();
    lemma_backend_scan_skips_other_flags(prefix, seq!["--backend"@, "serial"@] + rest);
    lemma_backend_scan_skips_other_flags(prefix, seq!["--backend"@, "rayon"@] + rest);
    lemma_backend_scan_skips_other_flags(prefix, seq!["--backend"@, "gpu"@] + rest);
    assert((seq!["--backend"@, "serial"@] + rest)[1] == "serial"@);
    assert((seq!["--backend"@, "rayon"@] + rest)[1] == "rayon"@);
    assert((seq!["--backend"@, "gpu"@] + rest)[1] == "gpu"@);
    assert((seq!["--backend"@, "serial"@] + rest)[0] == "--backend"@);
    assert((seq!["--backend"@, "rayon"@] + rest)[0] == "--backend"@);
    assert((seq!["--backend"@, "gpu"@] + rest)[0] == "--backend"@);
}

/// A command line without `--backend` leaves the default backend and turns
/// nothing down.
pub proof fn lemma_no_backend_flag_keeps_the_default(args: Seq<Seq<char>>)
    requires
        forall|i: int| 0 <= i < args.len() ==> #[trigger] args[i] != "--backend"@,
    ensures
        backend_choice(args) == (BackendKind::Serial, Seq::<Seq<char>>::empty()),
{
    lemma_backend_scan_skips_other_flags(args, Seq::empty());
    assert(args + Seq::<Seq<char>>::empty() =~= args);
}

} // verus!
