use vstd::prelude::*;

verus! {

/// Why a set of closing conditions was refused.
#[derive(Debug, PartialEq, Eq, Structural)]
pub enum ConfigError {
    /// The hard timeout is zero, or the renew timeout is not below it.
    InvalidConfig,
}

/// What a [`Conditions`] or a [`Builder`] holds.
pub ghost struct ConditionsView {
    pub timeout: u32,
    pub renew_timeout: Option<u32>,
    pub max_size: Option<usize>,
    pub first_opens: Option<bool>,
    pub last_closes: Option<bool>,
    pub patterns: Seq<Seq<char>>,
}

impl ConditionsView {
    /// A bundle that `build` accepts.
    pub open spec fn valid(self) -> bool {
        self.timeout > 0 && match self.renew_timeout {
            Some(r) => r < self.timeout,
            None => true,
        }
    }
}

pub open spec fn strings_view(v: Seq<String>) -> Seq<Seq<char>> {
    v.map_values(|s: String| s@)
}

/// The closing rules of a context and the uuids of the patterns taking part in it.
pub struct Conditions {
    timeout: u32,
    renew_timeout: Option<u32>,
    max_size: Option<usize>,
    first_opens: Option<bool>,
    last_closes: Option<bool>,
    patterns: Vec<String>,
}

impl View for Conditions {
    type V = ConditionsView;

    closed spec fn view(&self) -> ConditionsView {
        ConditionsView {
            timeout: self.timeout,
            renew_timeout: self.renew_timeout,
            max_size: self.max_size,
            first_opens: self.first_opens,
            last_closes: self.last_closes,
            patterns: strings_view(self.patterns@),
        }
    }
}

impl Conditions {
    /// A second bundle with the same fields.
    pub fn copy(&self) -> (r: Conditions)
        ensures
            r@ == self@,
    {
        let mut patterns: Vec<String> = Vec::new();
        let mut i: usize = 0;
        while i < self.patterns.len()
            invariant
                i <= self.patterns@.len(),
                patterns@ == self.patterns@.take(i as int),
            decreases self.patterns@.len() - i,
        {
            patterns.push(self.patterns[i].clone());
            proof {
                assert(patterns@ =~= self.patterns@.take(i + 1));
            }
            i = i + 1;
        }
        proof {
            assert(patterns@ =~= self.patterns@);
        }
        Conditions {
            timeout: self.timeout,
            renew_timeout: self.renew_timeout,
            max_size: self.max_size,
            first_opens: self.first_opens,
            last_closes: self.last_closes,
            patterns,
        }
    }

    pub fn timeout(&self) -> (r: u32)
        ensures
            r == self@.timeout,
    {
        self.timeout
    }

    pub fn renew_timeout(&self) -> (r: Option<u32>)
        ensures
            r == self@.renew_timeout,
    {
        self.renew_timeout
    }

    pub fn max_size(&self) -> (r: Option<usize>)
        ensures
            r == self@.max_size,
    {
        self.max_size
    }

    pub fn first_opens(&self) -> (r: Option<bool>)
        ensures
            r == self@.first_opens,
    {
        self.first_opens
    }

    pub fn last_closes(&self) -> (r: Option<bool>)
        ensures
            r == self@.last_closes,
    {
        self.last_closes
    }

    pub fn patterns(&self) -> (r: &Vec<String>)
        ensures
            strings_view(r@) == self@.patterns,
    {
        &self.patterns
    }
}

/// Fluent builder of [`Conditions`], starting from the hard timeout.
pub struct Builder {
    timeout: u32,
    renew_timeout: Option<u32>,
    max_size: Option<usize>,
    first_opens: Option<bool>,
    last_closes: Option<bool>,
    patterns: Vec<String>,
}

impl View for Builder {
    type V = ConditionsView;

    closed spec fn view(&self) -> ConditionsView {
        ConditionsView {
            timeout: self.timeout,
            renew_timeout: self.renew_timeout,
            max_size: self.max_size,
            first_opens: self.first_opens,
            last_closes: self.last_closes,
            patterns: strings_view(self.patterns@),
        }
    }
}

impl Builder {
    pub fn new(timeout: u32) -> (r: Builder)
        ensures
            r@ == (ConditionsView {
                timeout,
                renew_timeout: None,
                max_size: None,
                first_opens: None,
                last_closes: None,
                patterns: Seq::empty(),
            }),
    {
        let r = Builder {
            timeout,
            renew_timeout: None,
            max_size: None,
            first_opens: None,
            last_closes: None,
            patterns: Vec::new(),
        };
        proof {
            assert(strings_view(r.patterns@) =~= Seq::empty());
        }
        r
    }

    pub fn renew_timeout(self, renew_timeout: u32) -> (r: Builder)
        ensures
            r@ == (ConditionsView { renew_timeout: Some(renew_timeout), ..self@ }),
    {
        Builder { renew_timeout: Some(renew_timeout), ..self }
    }

    pub fn max_size(self, max_size: usize) -> (r: Builder)
        ensures
            r@ == (ConditionsView { max_size: Some(max_size), ..self@ }),
    {
        Builder { max_size: Some(max_size), ..self }
    }

    pub fn first_opens(self, first_opens: bool) -> (r: Builder)
        ensures
            r@ == (ConditionsView { first_opens: Some(first_opens), ..self@ }),
    {
        Builder { first_opens: Some(first_opens), ..self }
    }

    pub fn last_closes(self, last_closes: bool) -> (r: Builder)
        ensures
            r@ == (ConditionsView { last_closes: Some(last_closes), ..self@ }),
    {
        Builder { last_closes: Some(last_closes), ..self }
    }

    pub fn patterns(self, patterns: Vec<String>) -> (r: Builder)
        ensures
            r@ == (ConditionsView { patterns: strings_view(patterns@), ..self@ }),
    {
        Builder { patterns, ..self }
    }

    /// Fails exactly when the timeout is zero or the renew timeout is not below it.
    pub fn build(self) -> (r: Result<Conditions, ConfigError>)
        ensures
            r is Ok <==> self@.valid(),
            r is Ok ==> r->Ok_0@ == self@,
            r is Err ==> r->Err_0 == ConfigError::InvalidConfig,
    {
        if self.timeout == 0 {
            return Err(ConfigError::InvalidConfig);
        }
        if let Some(renew) = self.renew_timeout {
            if renew >= self.timeout {
                return Err(ConfigError::InvalidConfig);
            }
        }
        Ok(Conditions {
            timeout: self.timeout,
            renew_timeout: self.renew_timeout,
            max_size: self.max_size,
            first_opens: self.first_opens,
            last_closes: self.last_closes,
            patterns: self.patterns,
        })
    }
}

} // verus!
