//! The commands of a small debugger, parsed from the words of a command line,
//! and the debug-information lookups that resolve a breakpoint location.
use vstd::prelude::*;
use vstd::string::StrSliceExecFns;
use vstd::string::StringExecFns;
use crate::text::{parse_usize, spec_parse_usize, str_equals};

verus! {

/// A command that the debugger understands.
#[derive(Debug)]
pub enum DebuggerCommand {
    Quit,
    Run(Vec<String>),
    Continue,
    BackTrace,
    Break(usize),
}

/// One row of a source file's line table: a line and the address of its
/// first instruction.
#[derive(Debug)]
pub struct LineEntry {
    pub number: usize,
    pub address: usize,
}

/// A function of a source file: its name, its entry address and the length
/// in bytes of its code, which spans `address .. address + text_length`.
#[derive(Debug)]
pub struct FunctionEntry {
    pub name: String,
    pub address: usize,
    pub text_length: usize,
}

/// What the debug information says about one source file.
#[derive(Debug)]
pub struct SourceFile {
    pub name: String,
    pub lines: Vec<LineEntry>,
    pub functions: Vec<FunctionEntry>,
}

/// A source location that an address falls in: the file, the line and the
/// address where the line's code begins.
#[derive(Debug)]
pub struct Line {
    pub file: String,
    pub number: usize,
    pub address: usize,
}

/// The debug information of a program, file by file, as far as breakpoint
/// resolution reads it.
#[derive(Debug)]
pub struct DwarfData {
    pub files: Vec<SourceFile>,
}

/// The address of the first row whose line is at or after `line_number`.
pub open spec fn first_line_at_or_after(lines: Seq<LineEntry>, line_number: usize) -> Option<usize>
    decreases lines.len(),
{
    if lines.len() == 0 {
        None
    } else if lines[0].number >= line_number {
        Some(lines[0].address)
    } else {
        first_line_at_or_after(lines.drop_first(), line_number)
    }
}

/// The address of the first function called `name`.
pub open spec fn first_function_named(functions: Seq<FunctionEntry>, name: Seq<char>) -> Option<
    usize,
>
    decreases functions.len(),
{
    if functions.len() == 0 {
        None
    } else if functions[0].name@ == name {
        Some(functions[0].address)
    } else {
        first_function_named(functions.drop_first(), name)
    }
}

/// The address of the first function called `name`, searching the files in
/// order.
pub open spec fn function_in_files(files: Seq<SourceFile>, name: Seq<char>) -> Option<usize>
    decreases files.len(),
{
    if files.len() == 0 {
        None
    } else {
        match first_function_named(files[0].functions@, name) {
            Some(a) => Some(a),
            None => function_in_files(files.drop_first(), name),
        }
    }
}

/// The name of the first function whose code spans `addr`.
pub open spec fn first_function_containing(functions: Seq<FunctionEntry>, addr: usize) -> Option<
    Seq<char>,
>
    decreases functions.len(),
{
    if functions.len() == 0 {
        None
    } else if functions[0].address <= addr < functions[0].address + functions[0].text_length {
        Some(functions[0].name@)
    } else {
        first_function_containing(functions.drop_first(), addr)
    }
}

/// The name of the first function whose code spans `addr`, searching the
/// files in order.
pub open spec fn function_at_in_files(files: Seq<SourceFile>, addr: usize) -> Option<Seq<char>>
    decreases files.len(),
{
    if files.len() == 0 {
        None
    } else {
        match first_function_containing(files[0].functions@, addr) {
            Some(n) => Some(n),
            None => function_at_in_files(files.drop_first(), addr),
        }
    }
}

/// Row `k` of file `f`'s line table begins at or before `addr`.
pub open spec fn row_at_or_before(files: Seq<SourceFile>, f: int, k: int, addr: usize) -> bool {
    &&& 0 <= f < files.len()
    &&& 0 <= k < files[f].lines@.len()
    &&& files[f].lines@[k].address <= addr
}

/// Row `k` of file `f` comes before row `k2` of file `f2`, files in order
/// and rows in table order.
pub open spec fn row_precedes(f: int, k: int, f2: int, k2: int) -> bool {
    f < f2 || (f == f2 && k < k2)
}

/// Row `k` of file `f` is the row that `addr` falls in: of the rows that
/// begin at or before `addr`, it begins last, and it is the first such row
/// among those that begin at the same address.
pub open spec fn covering_row(files: Seq<SourceFile>, f: int, k: int, addr: usize) -> bool {
    &&& row_at_or_before(files, f, k, addr)
    &&& forall|f2: int, k2: int|
        #[trigger] row_at_or_before(files, f2, k2, addr) ==> {
            &&& files[f2].lines@[k2].address <= files[f].lines@[k].address
            &&& files[f2].lines@[k2].address == files[f].lines@[k].address ==> !row_precedes(
                f2,
                k2,
                f,
                k,
            )
        }
}

impl DwarfData {
    /// Where a breakpoint on `line_number` goes: the first row of the first
    /// file's line table at or after that line.
    pub open spec fn spec_addr_for_line(&self, line_number: usize) -> Option<usize> {
        if self.files@.len() == 0 {
            None
        } else {
            first_line_at_or_after(self.files@[0].lines@, line_number)
        }
    }

    /// Where a breakpoint on the function `name` goes.
    pub open spec fn spec_addr_for_function(&self, name: Seq<char>) -> Option<usize> {
        function_in_files(self.files@, name)
    }

    /// The address for a breakpoint on `line_number`.
    pub fn get_addr_for_line(&self, line_number: usize) -> (r: Option<usize>)
        ensures
            r == self.spec_addr_for_line(line_number),
    {
        if self.files.len() == 0 {
            return None;
        }
        let lines = &self.files[0].lines;
        let mut i: usize = 0;
        assert(lines@.skip(0) =~= lines@);
        while i < lines.len()
            invariant
                i <= lines@.len(),
                self.files@.len() > 0,
                lines@ == self.files@[0].lines@,
                first_line_at_or_after(lines@, line_number) == first_line_at_or_after(
                    lines@.skip(i as int),
                    line_number,
                ),
            decreases lines@.len() - i,
        {
            assert(lines@.skip(i as int)[0] == lines@[i as int]);
            assert(lines@.skip(i as int).drop_first() =~= lines@.skip(i + 1));
            if lines[i].number >= line_number {
                return Some(lines[i].address);
            }
            i = i + 1;
        }
        assert(lines@.skip(i as int).len() == 0);
        None
    }

    /// The address for a breakpoint on the function called `name`.
    pub fn get_addr_for_function(&self, name: &str) -> (r: Option<usize>)
        ensures
            r == self.spec_addr_for_function(name@),
    {
        let mut f: usize = 0;
        assert(self.files@.skip(0) =~= self.files@);
        while f < self.files.len()
            invariant
                f <= self.files@.len(),
                function_in_files(self.files@, name@) == function_in_files(
                    self.files@.skip(f as int),
                    name@,
                ),
            decreases self.files@.len() - f,
        {
            let functions = &self.files[f].functions;
            assert(self.files@.skip(f as int)[0] == self.files@[f as int]);
            assert(self.files@.skip(f as int).drop_first() =~= self.files@.skip(f + 1));
            let mut i: usize = 0;
            assert(functions@.skip(0) =~= functions@);
            while i < functions.len()
                invariant
                    i <= functions@.len(),
                    f < self.files@.len(),
                    functions@ == self.files@[f as int].functions@,
                    function_in_files(self.files@, name@) == function_in_files(
                        self.files@.skip(f as int),
                        name@,
                    ),
                    self.files@.skip(f as int)[0] == self.files@[f as int],
                    self.files@.skip(f as int).drop_first() == self.files@.skip(f + 1),
                    first_function_named(functions@, name@) == first_function_named(
                        functions@.skip(i as int),
                        name@,
                    ),
                decreases functions@.len() - i,
            {
                assert(functions@.skip(i as int)[0] == functions@[i as int]);
                assert(functions@.skip(i as int).drop_first() =~= functions@.skip(i + 1));
                if str_equals(functions[i].name.as_str(), name) {
                    return Some(functions[i].address);
                }
                i = i + 1;
            }
            assert(functions@.skip(i as int).len() == 0);
            f = f + 1;
        }
        assert(self.files@.skip(f as int).len() == 0);
        None
    }

    /// The name of the function whose code spans `addr`: the first such
    /// function, files in order.
    pub fn get_function_from_addr(&self, addr: usize) -> (r: Option<String>)
        ensures
            r is None <==> function_at_in_files(self.files@, addr) is None,
            r matches Some(n) ==> function_at_in_files(self.files@, addr) == Some(n@),
    {
        let mut f: usize = 0;
        assert(self.files@.skip(0) =~= self.files@);
        while f < self.files.len()
            invariant
                f <= self.files@.len(),
                function_at_in_files(self.files@, addr) == function_at_in_files(
                    self.files@.skip(f as int),
                    addr,
                ),
            decreases self.files@.len() - f,
        {
            let functions = &self.files[f].functions;
            assert(self.files@.skip(f as int)[0] == self.files@[f as int]);
            assert(self.files@.skip(f as int).drop_first() =~= self.files@.skip(f + 1));
            let mut i: usize = 0;
            assert(functions@.skip(0) =~= functions@);
            while i < functions.len()
                invariant
                    i <= functions@.len(),
                    f < self.files@.len(),
                    functions@ == self.files@[f as int].functions@,
                    function_at_in_files(self.files@, addr) == function_at_in_files(
                        self.files@.skip(f as int),
                        addr,
                    ),
                    self.files@.skip(f as int)[0] == self.files@[f as int],
                    self.files@.skip(f as int).drop_first() == self.files@.skip(f + 1),
                    first_function_containing(functions@, addr) == first_function_containing(
                        functions@.skip(i as int),
                        addr,
                    ),
                decreases functions@.len() - i,
            {
                assert(functions@.skip(i as int)[0] == functions@[i as int]);
                assert(functions@.skip(i as int).drop_first() =~= functions@.skip(i + 1));
                let func = &functions[i];
                if addr >= func.address && addr - func.address < func.text_length {
                    return Some(func.name.clone());
                }
                i = i + 1;
            }
            assert(functions@.skip(i as int).len() == 0);
            f = f + 1;
        }
        assert(self.files@.skip(f as int).len() == 0);
        None
    }

    /// The source line that `addr` falls in: the row, over all files' line
    /// tables, that begins last at or before `addr` (the first of equal
    /// ones), with its file's name; `None` when no row begins at or before
    /// `addr`.
    pub fn get_line_from_addr(&self, addr: usize) -> (r: Option<Line>)
        ensures
            r is None <==> !(exists|f: int, k: int| row_at_or_before(self.files@, f, k, addr)),
            r matches Some(line) ==> exists|f: int, k: int|
                {
                    &&& covering_row(self.files@, f, k, addr)
                    &&& line.file@ == self.files@[f].name@
                    &&& line.number == self.files@[f].lines@[k].number
                    &&& line.address == self.files@[f].lines@[k].address
                },
    {
        let ghost files = self.files@;
        let mut best: Option<(usize, usize)> = None;
        let mut f: usize = 0;
        while f < self.files.len()
            invariant
                files == self.files@,
                f <= files.len(),
                best is None <==> !(exists|f2: int, k2: int|
                    row_at_or_before(files, f2, k2, addr) && f2 < f),
                best matches Some((bf, bk)) ==> {
                    &&& bf < f
                    &&& row_at_or_before(files, bf as int, bk as int, addr)
                    &&& forall|f2: int, k2: int|
                        #[trigger] row_at_or_before(files, f2, k2, addr) && f2 < f ==> {
                            &&& files[f2].lines@[k2].address <= files[bf as int].lines@[bk as int].address
                            &&& files[f2].lines@[k2].address
                                == files[bf as int].lines@[bk as int].address ==> !row_precedes(
                                f2,
                                k2,
                                bf as int,
                                bk as int,
                            )
                        }
                },
            decreases files.len() - f,
        {
            let lines = &self.files[f].lines;
            let mut k: usize = 0;
            while k < lines.len()
                invariant
                    files == self.files@,
                    f < files.len(),
                    lines@ == files[f as int].lines@,
                    k <= lines@.len(),
                    best is None <==> !(exists|f2: int, k2: int|
                        row_at_or_before(files, f2, k2, addr) && row_precedes(
                            f2,
                            k2,
                            f as int,
                            k as int,
                        )),
                    best matches Some((bf, bk)) ==> {
                        &&& row_precedes(bf as int, bk as int, f as int, k as int)
                        &&& row_at_or_before(files, bf as int, bk as int, addr)
                        &&& forall|f2: int, k2: int|
                            #[trigger] row_at_or_before(files, f2, k2, addr) && row_precedes(
                                f2,
                                k2,
                                f as int,
                                k as int,
                            ) ==> {
                                &&& files[f2].lines@[k2].address
                                    <= files[bf as int].lines@[bk as int].address
                                &&& files[f2].lines@[k2].address
                                    == files[bf as int].lines@[bk as int].address
                                    ==> !row_precedes(f2, k2, bf as int, bk as int)
                            }
                    },
                decreases lines@.len() - k,
            {
                let row_address = lines[k].address;
                if row_address <= addr {
                    let better = match best {
                        None => true,
                        Some((bf, bk)) => row_address > self.files[bf].lines[bk].address,
                    };
                    if better {
                        best = Some((f, k));
                    }
                }
                proof {
                    let (ff, kk) = (f as int, k as int);
                    if row_address <= addr {
                        assert(row_at_or_before(files, ff, kk, addr));
                    }
                    assert forall|f2: int, k2: int|
                        row_precedes(f2, k2, ff, kk + 1) && !(f2 == ff && k2 == kk) implies row_precedes(
                        f2,
                        k2,
                        ff,
                        kk,
                    ) by {}
                }
                k = k + 1;
            }
            f = f + 1;
        }
        match best {
            None => None,
            Some((bf, bk)) => {
                proof {
                    assert forall|f2: int, k2: int|
                        #[trigger] row_at_or_before(files, f2, k2, addr) implies {
                        &&& files[f2].lines@[k2].address <= files[bf as int].lines@[bk as int].address
                        &&& files[f2].lines@[k2].address
                            == files[bf as int].lines@[bk as int].address ==> !row_precedes(
                            f2,
                            k2,
                            bf as int,
                            bk as int,
                        )
                    } by {
                        assert(f2 < f);
                    }
                    assert(covering_row(files, bf as int, bk as int, addr));
                }
                let file = &self.files[bf];
                let row = &file.lines[bk];
                Some(Line { file: file.name.clone(), number: row.number, address: row.address })
            },
        }
    }
}

/// `s` begins with `0x` in either case, which is when its lower-case form
/// begins with `0x`.
pub open spec fn has_hex_prefix(s: Seq<char>) -> bool {
    s.len() >= 2 && s[0] == '0' && (s[1] == 'x' || s[1] == 'X')
}

/// A hexadecimal address, with or without a `0x` prefix.
pub open spec fn spec_parse_address(s: Seq<char>) -> Option<usize> {
    spec_parse_usize(
        if has_hex_prefix(s) {
            s.skip(2)
        } else {
            s
        },
        16,
    )
}

/// Parses a hexadecimal address, with or without a `0x` prefix.
pub fn parse_address(addr: &str) -> (r: Option<usize>)
    ensures
        r == spec_parse_address(addr@),
{
    let n = addr.unicode_len();
    let digits: &str = if n >= 2 && addr.get_char(0) == '0' && (addr.get_char(1) == 'x'
        || addr.get_char(1) == 'X') {
        addr.substring_char(2, n)
    } else {
        addr
    };
    assert(digits@ =~= (if has_hex_prefix(addr@) {
        addr@.skip(2)
    } else {
        addr@
    }));
    parse_usize(digits, 16)
}

/// Parses a decimal line number.
pub fn parse_line(line: &str) -> (r: Option<usize>)
    ensures
        r == spec_parse_usize(line@, 10),
{
    parse_usize(line, 10)
}

/// The command that a first word names.
pub enum Keyword {
    Quit,
    Run,
    Continue,
    BackTrace,
    Break,
    Unknown,
}

/// The command named by the word `w`.
pub open spec fn keyword_of(w: Seq<char>) -> Keyword {
    if w == "q"@ || w == "quit"@ {
        Keyword::Quit
    } else if w == "r"@ || w == "run"@ {
        Keyword::Run
    } else if w == "c"@ || w == "cont"@ || w == "continue"@ {
        Keyword::Continue
    } else if w == "bt"@ || w == "backtrace"@ {
        Keyword::BackTrace
    } else if w == "b"@ || w == "break"@ {
        Keyword::Break
    } else {
        Keyword::Unknown
    }
}

/// A word that begins with `*` never parses as an address: the star is no
/// hexadecimal digit.
pub proof fn law_star_word_is_no_address(w: Seq<char>)
    requires
        w.len() > 0,
        w[0] == '*',
    ensures
        spec_parse_address(w) is None,
{
    assert(!has_hex_prefix(w));
    assert(crate::text::digit_value(w[0], 16) is None);
}

/// Where a `break` command with the words `words` sets its breakpoint: it
/// takes exactly one argument; one that begins with `*` is read as an
/// address with the star left in it, which no address parse accepts, so
/// such a breakpoint is never set; one that reads as a decimal number is a
/// line; anything else is a function name.
pub open spec fn spec_break_target(words: Seq<Seq<char>>, debug_data: DwarfData) -> Option<usize> {
    if words.len() != 2 {
        None
    } else {
        let arg = words[1];
        if arg.len() > 0 && arg[0] == '*' {
            spec_parse_address(arg)
        } else if spec_parse_usize(arg, 10) is Some {
            debug_data.spec_addr_for_line(spec_parse_usize(arg, 10)->0)
        } else {
            debug_data.spec_addr_for_function(arg)
        }
    }
}

/// `break N` with `N` read as a decimal number sets the breakpoint at the
/// address of line `N`, whatever the command word.
pub proof fn law_break_on_a_decimal_number_is_a_line(
    command: Seq<char>,
    arg: Seq<char>,
    debug_data: DwarfData,
    n: usize,
)
    requires
        spec_parse_usize(arg, 10) == Some(n),
    ensures
        spec_break_target(seq![command, arg], debug_data) == debug_data.spec_addr_for_line(n),
{
    let words = seq![command, arg];
    assert(words[1] == arg);
    if arg.len() > 0 && arg[0] == '*' {
        law_star_word_is_no_address(arg);
        let digits = if arg.len() > 0 && arg[0] == '+' {
            arg.drop_first()
        } else {
            arg
        };
        assert(crate::text::digit_value(digits[0], 10) is None);
    }
}

/// `break NAME`, where `NAME` does not begin with `*` and is no decimal
/// number (such as `add` or `face`, though they read as hexadecimal), sets
/// the breakpoint at the function called `NAME`.
pub proof fn law_break_on_anything_else_is_a_function(
    command: Seq<char>,
    arg: Seq<char>,
    debug_data: DwarfData,
)
    requires
        !(arg.len() > 0 && arg[0] == '*'),
        spec_parse_usize(arg, 10) is None,
    ensures
        spec_break_target(seq![command, arg], debug_data) == debug_data.spec_addr_for_function(arg),
{
    let words = seq![command, arg];
    assert(words[1] == arg);
}

/// `break *ADDR` sets no breakpoint: the argument goes to the address parse
/// with its star.
pub proof fn law_break_on_a_starred_word_sets_nothing(
    command: Seq<char>,
    arg: Seq<char>,
    debug_data: DwarfData,
)
    requires
        arg.len() > 0,
        arg[0] == '*',
    ensures
        spec_break_target(seq![command, arg], debug_data) is None,
{
    let words = seq![command, arg];
    assert(words[1] == arg);
    law_star_word_is_no_address(arg);
}

/// The characters of each word.
pub open spec fn word_texts(tokens: Seq<&str>) -> Seq<Seq<char>> {
    tokens.map_values(|t: &str| t@)
}

impl DebuggerCommand {
    /// The command that the words of a command line name, or `None` when
    /// they name none or a breakpoint location cannot be resolved. A
    /// `break` argument that begins with `*` is handed to the address parse
    /// whole, star included, so `break *ADDR` always gives `None`.
    pub fn from_tokens(tokens: &Vec<&str>, debug_data: &DwarfData) -> (r: Option<DebuggerCommand>)
        requires
            tokens@.len() > 0,
        ensures
            match keyword_of(tokens@[0]@) {
                Keyword::Quit => r == Some(DebuggerCommand::Quit),
                Keyword::Run => r matches Some(DebuggerCommand::Run(args)) && args@.len()
                    == tokens@.len() - 1 && forall|i: int|
                    0 <= i < args@.len() ==> (#[trigger] args@[i])@ == tokens@[i + 1]@,
                Keyword::Continue => r == Some(DebuggerCommand::Continue),
                Keyword::BackTrace => r == Some(DebuggerCommand::BackTrace),
                Keyword::Break => r == match spec_break_target(
                    word_texts(tokens@),
                    *debug_data,
                ) {
                    Some(a) => Some(DebuggerCommand::Break(a)),
                    None => None,
                },
                Keyword::Unknown => r is None,
            },
    {
        let word = tokens[0];
        if str_equals(word, "q") || str_equals(word, "quit") {
            Some(DebuggerCommand::Quit)
        } else if str_equals(word, "r") || str_equals(word, "run") {
            let mut args: Vec<String> = Vec::new();
            let mut i: usize = 1;
            while i < tokens.len()
                invariant
                    1 <= i <= tokens@.len(),
                    args@.len() == i - 1,
                    forall|j: int| 0 <= j < args@.len() ==> (#[trigger] args@[j])@ == tokens@[j + 1]@,
                decreases tokens@.len() - i,
            {
                args.push(String::from_str(tokens[i]));
                i = i + 1;
            }
            Some(DebuggerCommand::Run(args))
        } else if str_equals(word, "c") || str_equals(word, "cont") || str_equals(word, "continue") {
            Some(DebuggerCommand::Continue)
        } else if str_equals(word, "bt") || str_equals(word, "backtrace") {
            Some(DebuggerCommand::BackTrace)
        } else if str_equals(word, "b") || str_equals(word, "break") {
            let ghost words = word_texts(tokens@);
            if tokens.len() != 2 {
                None
            } else {
                let arg = tokens[1];
                assert(words[1] == arg@);
                if arg.unicode_len() > 0 && arg.get_char(0) == '*' {
                    match parse_address(arg) {
                        Some(a) => Some(DebuggerCommand::Break(a)),
                        None => None,
                    }
                } else if let Some(line) = parse_line(arg) {
                    match debug_data.get_addr_for_line(line) {
                        Some(a) => Some(DebuggerCommand::Break(a)),
                        None => None,
                    }
                } else {
                    match debug_data.get_addr_for_function(arg) {
                        Some(a) => Some(DebuggerCommand::Break(a)),
                        None => None,
                    }
                }
            }
        } else {
            None
        }
    }
}

} // verus!
