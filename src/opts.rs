//! The resolved invocation: the set of inputs (canonical files and the
//! standard-input marker), the optional line range and the check flag.
use vstd::prelude::*;

verus! {

/// One input of the formatting stage.
#[derive(Debug)]
pub enum Input {
    /// A canonical path naming a regular file.
    File(String),
    /// Read from standard input.
    Stdin,
}

/// What an [`Input`] stands for.
pub enum InputView {
    File(Seq<char>),
    Stdin,
}

impl View for Input {
    type V = InputView;

    open spec fn view(&self) -> InputView {
        match self {
            Input::File(p) => InputView::File(p@),
            Input::Stdin => InputView::Stdin,
        }
    }
}

impl Input {
    /// Whether two inputs stand for the same thing.
    pub fn same_as(&self, other: &Input) -> (r: bool)
        ensures
            r == (self@ == other@),
    {
        match (self, other) {
            (Input::File(a), Input::File(b)) => *a == *b,
            (Input::Stdin, Input::Stdin) => true,
            _ => false,
        }
    }

    /// The path of a file input.
    pub fn path(&self) -> (r: Option<&String>)
        ensures
            match self@ {
                InputView::File(p) => r is Some && r.unwrap()@ == p,
                InputView::Stdin => r is None,
            },
    {
        match self {
            Input::File(p) => Some(p),
            Input::Stdin => None,
        }
    }
}

/// The argument that stands for standard input.
pub open spec fn is_stdin_marker(s: Seq<char>) -> bool {
    s == seq!['-']
}

/// The views of a sequence of strings.
pub open spec fn string_views(s: Seq<String>) -> Seq<Seq<char>> {
    s.map_values(|x: String| x@)
}

/// Separates the standard-input marker from the path arguments: whether the
/// marker was given, and the other arguments in their order.
pub fn split_stdin(raw: &Vec<String>) -> (r: (bool, Vec<String>))
    ensures
        r.0 == string_views(raw@).contains(seq!['-']),
        string_views(r.1@) == string_views(raw@).filter(|s: Seq<char>| !is_stdin_marker(s)),
{
    let mut stdin = false;
    let mut paths: Vec<String> = Vec::new();
    let mut i: usize = 0;
    while i < raw.len()
        invariant
            0 <= i <= raw@.len(),
            stdin == string_views(raw@.take(i as int)).contains(seq!['-']),
            string_views(paths@) == string_views(raw@.take(i as int)).filter(
                |s: Seq<char>| !is_stdin_marker(s),
            ),
        decreases raw@.len() - i,
    {
        let s = raw[i].as_str();
        let marker = s.unicode_len() == 1 && s.get_char(0) == '-';
        let ghost before = string_views(raw@.take(i as int));
        proof {
            assert(string_views(raw@.take(i + 1)) =~= before.push(raw@[i as int]@));
            before.lemma_filter_push(raw@[i as int]@, |s: Seq<char>| !is_stdin_marker(s));
            assert(marker == (raw@[i as int]@ =~= seq!['-']));
            assert(before.push(raw@[i as int]@).contains(seq!['-']) == (before.contains(seq!['-'])
                || raw@[i as int]@ == seq!['-'])) by {
                if raw@[i as int]@ == seq!['-'] {
                    assert(before.push(raw@[i as int]@)[before.len() as int] == seq!['-']);
                }
                if before.contains(seq!['-']) {
                    let k = choose|k: int| 0 <= k < before.len() && before[k] == seq!['-'];
                    assert(before.push(raw@[i as int]@)[k] == seq!['-']);
                }
            }
        }
        if marker {
            stdin = true;
        } else {
            let ghost old_paths = paths@;
            paths.push(raw[i].clone());
            assert(string_views(paths@) =~= string_views(old_paths).push(raw@[i as int]@));
        }
        i = i + 1;
    }
    assert(raw@.take(raw@.len() as int) =~= raw@);
    (stdin, paths)
}

/// The abstract value of [`Opts`].
pub struct OptsView {
    pub inputs: Set<InputView>,
    pub from: Option<usize>,
    pub upto: Option<usize>,
    pub check: bool,
}

/// The views of a sequence of inputs.
pub open spec fn input_views(s: Seq<Input>) -> Seq<InputView> {
    s.map_values(|i: Input| i@)
}

/// The options handed to the formatting stage.
#[derive(Debug)]
pub struct Opts {
    inputs: Vec<Input>,
    from: Option<usize>,
    upto: Option<usize>,
    check: bool,
}

impl View for Opts {
    type V = OptsView;

    closed spec fn view(&self) -> OptsView {
        OptsView {
            inputs: input_views(self.inputs@).to_set(),
            from: self.from,
            upto: self.upto,
            check: self.check,
        }
    }
}

/// Why an invocation is refused: a line range with more than one input.
pub struct LineRangeConflict;

impl LineRangeConflict {
    /// The message shown to the user.
    pub fn message(&self) -> (r: String)
        ensures
            r@ == "--from and --upto cannot be used with more than one input file."@,
    {
        String::from_str("--from and --upto cannot be used with more than one input file.")
    }
}

impl Opts {
    /// No input is held twice.
    #[verifier::type_invariant]
    closed spec fn inputs_distinct(&self) -> bool {
        input_views(self.inputs@).no_duplicates()
    }

    /// Options with no input, no line range and no check.
    pub fn new() -> (r: Self)
        ensures
            r@ == (OptsView { inputs: Set::empty(), from: None, upto: None, check: false }),
    {
        let r = Opts { inputs: Vec::new(), from: None, upto: None, check: false };
        assert(input_views(r.inputs@).to_set() =~= Set::empty());
        r
    }

    /// Sets the first line to indent.
    pub fn from(self, line: usize) -> (r: Self)
        ensures
            r@ == (OptsView { from: Some(line), ..self@ }),
    {
        proof {
            use_type_invariant(&self);
        }
        Opts { inputs: self.inputs, from: Some(line), upto: self.upto, check: self.check }
    }

    /// Sets the last line to indent.
    pub fn upto(self, line: usize) -> (r: Self)
        ensures
            r@ == (OptsView { upto: Some(line), ..self@ }),
    {
        proof {
            use_type_invariant(&self);
        }
        Opts { inputs: self.inputs, from: self.from, upto: Some(line), check: self.check }
    }

    /// Only checks the indentation, without rewriting.
    pub fn check(self) -> (r: Self)
        ensures
            r@ == (OptsView { check: true, ..self@ }),
    {
        proof {
            use_type_invariant(&self);
        }
        Opts { inputs: self.inputs, from: self.from, upto: self.upto, check: true }
    }

    /// Adds an input, unless an equal one is already held.
    fn add_input(self, input: Input) -> (r: Self)
        ensures
            r@ == (OptsView { inputs: self@.inputs.insert(input@), ..self@ }),
    {
        proof {
            use_type_invariant(&self);
        }
        let Opts { mut inputs, from, upto, check } = self;
        let mut i: usize = 0;
        while i < inputs.len()
            invariant
                0 <= i <= inputs@.len(),
                input_views(inputs@).no_duplicates(),
                self@ == (OptsView { inputs: input_views(inputs@).to_set(), from, upto, check }),
                forall|j: int| 0 <= j < i ==> inputs@[j]@ != input@,
            decreases inputs@.len() - i,
        {
            if inputs[i].same_as(&input) {
                proof {
                    assert(input_views(inputs@)[i as int] == input@);
                    assert(input_views(inputs@).to_set().insert(input@) =~= input_views(
                        inputs@,
                    ).to_set());
                }
                return Opts { inputs, from, upto, check };
            }
            i = i + 1;
        }
        let ghost before = inputs@;
        inputs.push(input);
        proof {
            assert(input_views(inputs@) =~= input_views(before).push(input@));
            input_views(before).lemma_push_to_set_commute(input@);
            assert forall|j: int| 0 <= j < before.len() implies input_views(before)[j]
                != input@ by {
                assert(input_views(before)[j] == before[j]@);
            }
        }
        Opts { inputs, from, upto, check }
    }

    /// Adds a canonical file path.
    pub fn add_file(self, file: String) -> (r: Self)
        ensures
            r@ == (OptsView { inputs: self@.inputs.insert(InputView::File(file@)), ..self@ }),
    {
        self.add_input(Input::File(file))
    }

    /// Adds the standard-input marker.
    pub fn add_stdin(self) -> (r: Self)
        ensures
            r@ == (OptsView { inputs: self@.inputs.insert(InputView::Stdin), ..self@ }),
    {
        self.add_input(Input::Stdin)
    }

    /// The inputs, each once.
    pub fn inputs(&self) -> (r: &Vec<Input>)
        ensures
            input_views(r@).to_set() == self@.inputs,
            input_views(r@).no_duplicates(),
    {
        proof {
            use_type_invariant(self);
        }
        &self.inputs
    }

    /// The first line to indent, if set.
    pub fn from_line(&self) -> (r: Option<usize>)
        ensures
            r == self@.from,
    {
        self.from
    }

    /// The last line to indent, if set.
    pub fn upto_line(&self) -> (r: Option<usize>)
        ensures
            r == self@.upto,
    {
        self.upto
    }

    /// Whether only a check is asked for.
    pub fn is_check(&self) -> (r: bool)
        ensures
            r == self@.check,
    {
        self.check
    }

    /// Refuses a line range together with more than one input.
    pub fn check_line_range(&self) -> (r: Result<(), LineRangeConflict>)
        ensures
            r is Err <==> ((self@.from is Some || self@.upto is Some) && self@.inputs.len() > 1),
    {
        proof {
            use_type_invariant(self);
            input_views(self.inputs@).unique_seq_to_set();
        }
        if (self.from.is_some() || self.upto.is_some()) && self.inputs.len() > 1 {
            Err(LineRangeConflict)
        } else {
            Ok(())
        }
    }
}

} // verus!
