//! The environment of a small shell of its own.

use vstd::prelude::*;

verus! {

/// A shell with an environment of its own: variables and their values.
pub struct Minishell {
    env: Vec<(String, String)>,
}

/// What the environment holds, variable by variable.
pub open spec fn env_view(env: Seq<(String, String)>) -> Seq<(Seq<char>, Seq<char>)> {
    Seq::new(env.len(), |i: int| (env[i].0@, env[i].1@))
}

/// The place of a variable in the environment, if it is set.
pub open spec fn env_index(env: Seq<(Seq<char>, Seq<char>)>, key: Seq<char>) -> Option<int>
    decreases env.len(),
{
    if env.len() == 0 {
        None
    } else {
        match env_index(env.drop_last(), key) {
            Some(i) => Some(i),
            None => if env.last().0 == key {
                Some(env.len() - 1)
            } else {
                None
            },
        }
    }
}

/// The value of a variable, if it is set.
pub open spec fn env_value(env: Seq<(Seq<char>, Seq<char>)>, key: Seq<char>) -> Option<Seq<char>> {
    match env_index(env, key) {
        Some(i) => Some(env[i].1),
        None => None,
    }
}

/// The environment after a variable was set.
pub open spec fn env_set(env: Seq<(Seq<char>, Seq<char>)>, key: Seq<char>, value: Seq<char>) -> Seq<
    (Seq<char>, Seq<char>),
> {
    match env_index(env, key) {
        Some(i) => env.update(i, (key, value)),
        None => env.push((key, value)),
    }
}

/// What `env_index` finds is the first place where the variable stands, and
/// it finds nothing only where the variable is not set.
pub proof fn lemma_env_index(env: Seq<(Seq<char>, Seq<char>)>, key: Seq<char>)
    ensures
        match env_index(env, key) {
            Some(i) => {
                &&& 0 <= i < env.len()
                &&& env[i].0 == key
                &&& forall|j: int| 0 <= j < i ==> (#[trigger] env[j]).0 != key
            },
            None => forall|j: int| 0 <= j < env.len() ==> (#[trigger] env[j]).0 != key,
        },
    decreases env.len(),
{
    if env.len() > 0 {
        let front = env.drop_last();
        lemma_env_index(front, key);
        match env_index(front, key) {
            Some(i) => {
                assert(front[i] == env[i]);
                assert forall|j: int| 0 <= j < i implies (#[trigger] env[j]).0 != key by {
                    assert(front[j] == env[j]);
                }
            },
            None => {
                assert forall|j: int| 0 <= j < front.len() implies (#[trigger] env[j]).0 != key by {
                    assert(front[j] == env[j]);
                }
            },
        }
    }
}

/// A variable that was set has the value it was set to.
pub proof fn lemma_getenv_after_setenv(
    env: Seq<(Seq<char>, Seq<char>)>,
    key: Seq<char>,
    value: Seq<char>,
)
    ensures
        env_value(env_set(env, key, value), key) == Some(value),
{
    lemma_env_index(env, key);
    let after = env_set(env, key, value);
    lemma_env_index(after, key);
    match env_index(env, key) {
        Some(i) => {
            assert(after[i].0 == key);
            if let Some(k) = env_index(after, key) {
                if k < i {
                    assert(after[k] == env[k]);
                }
            }
        },
        None => {
            assert(after[env.len() as int].0 == key);
            if let Some(k) = env_index(after, key) {
                if k < env.len() {
                    assert(after[k] == env[k]);
                }
            }
        },
    }
}

impl View for Minishell {
    type V = Seq<(Seq<char>, Seq<char>)>;

    closed spec fn view(&self) -> Seq<(Seq<char>, Seq<char>)> {
        env_view(self.env@)
    }
}

impl Minishell {
    /// A shell whose environment holds the given variables. Of a variable
    /// that is given twice, the first value counts.
    pub fn with_env(env: Vec<(String, String)>) -> (shell: Minishell)
        ensures
            shell@ == env_view(env@),
    {
        Minishell { env: env }
    }

    /// The place of a variable in the environment.
    fn find(&self, key: &str) -> (r: Option<usize>)
        ensures
            match r {
                Some(i) => env_index(self@, key@) == Some(i as int) && i < self.env@.len(),
                None => env_index(self@, key@) is None,
            },
    {
        let wanted = key.to_owned();
        let mut i: usize = 0;
        while i < self.env.len()
            invariant
                i <= self.env@.len(),
                wanted@ == key@,
                forall|j: int| 0 <= j < i ==> (#[trigger] self@[j]).0 != key@,
            decreases self.env@.len() - i,
        {
            if self.env[i].0 == wanted {
                proof {
                    assert(self@[i as int].0 == key@);
                    lemma_env_index(self@, key@);
                }
                return Some(i);
            }
            assert(self@[i as int].0 != key@);
            i += 1;
        }
        proof {
            lemma_env_index(self@, key@);
        }
        None
    }

    /// Sets a variable: gives it a new value if it is set already, and adds
    /// it if it is not.
    pub fn setenv(&mut self, key: &str, value: &str)
        ensures
            final(self)@ == env_set(old(self)@, key@, value@),
    {
        match self.find(key) {
            Some(i) => {
                self.env.set(i, (key.to_owned(), value.to_owned()));
            },
            None => {
                self.env.push((key.to_owned(), value.to_owned()));
            },
        }
        assert(self@ =~= env_set(old(self)@, key@, value@));
    }

    /// The value of a variable, if it is set.
    pub fn getenv(&self, key: &str) -> (r: Option<&str>)
        ensures
            match r {
                Some(v) => env_value(self@, key@) == Some(v@),
                None => env_value(self@, key@) is None,
            },
    {
        match self.find(key) {
            Some(i) => Some(self.env[i].1.as_str()),
            None => None,
        }
    }
}

} // verus!
