//! What holds of relocations that are applied one after another.
use crate::bytes;
use crate::common;
use crate::common::ModSection;
use crate::error::ModuleErr;
use crate::memory;
use crate::object;
use crate::object::{Rela, Reloc, SectionHeader, Sym};
use crate::prepare;
use crate::search;
use crate::x86_64::reloc_type::ArchRelocationType;
use crate::x86_64::relocate;
use crate::x86_64::relocation;
use crate::x86_64::sections;
use crate::x86_64::ModuleArchSpecific;
use goblin::elf::RelocSection;
use vstd::prelude::*;

verus! {

/// Whether a relocation goes through the global offset table.
pub open spec fn uses_got(rela: Rela) -> bool {
    rela.r_info as int % 0x1_0000_0000 == 9
}

/// How many of the relocations go through the global offset table.
pub open spec fn got_uses(relas: Seq<Rela>) -> nat
    decreases relas.len(),
{
    if relas.len() == 0 {
        0
    } else {
        got_uses(relas.drop_last()) + if uses_got(relas.last()) {
            1nat
        } else {
            0
        }
    }
}

/// The number of bytes that a relocation may write at its place.
pub open spec fn place_width(rela: Rela) -> int {
    relocate::put_bytes(rela)
}

/// The address of the place that a relocation is for.
pub open spec fn place(
    headers: Seq<SectionHeader>,
    rel_section: SectionHeader,
    rela: Rela,
) -> u64 {
    (headers[rel_section.sh_info as int].sh_addr + rela.r_offset) as u64
}

/// Whether an address lies in the place of a relocation.
pub open spec fn touches(
    headers: Seq<SectionHeader>,
    rel_section: SectionHeader,
    rela: Rela,
    addr: int,
) -> bool {
    relocation::in_place(addr, place(headers, rel_section, rela), place_width(rela))
}

/// Whether an address lies in the place of one of the relocations.
pub open spec fn any_touches(
    headers: Seq<SectionHeader>,
    rel_section: SectionHeader,
    relas: Seq<Rela>,
    addr: int,
) -> bool {
    exists|i: int| 0 <= i < relas.len() && touches(headers, rel_section, #[trigger] relas[i], addr)
}

/// Whether an address lies in the global offset table.
pub open spec fn in_got(
    headers: Seq<SectionHeader>,
    module: ModuleArchSpecific,
    addr: int,
) -> bool {
    let base = headers[module.got.shndx as int].sh_addr;
    base <= addr < base + module.got.max_entries * 8
}

/// Whether the places of the relocations lie outside of the global offset table.
pub open spec fn apart_from_got(
    headers: Seq<SectionHeader>,
    module: ModuleArchSpecific,
    rel_section: SectionHeader,
    relas: Seq<Rela>,
) -> bool {
    forall|a: int|
        in_got(headers, module, a) ==> !#[trigger] any_touches(headers, rel_section, relas, a)
}

/// The symbol addresses that the relocations ask of the global offset table, in
/// order.
pub open spec fn got_asked(syms: Seq<(Sym, String)>, relas: Seq<Rela>) -> Seq<nat>
    decreases relas.len(),
{
    if relas.len() == 0 {
        Seq::empty()
    } else {
        let rest = got_asked(syms, relas.drop_first());
        if uses_got(relas[0]) {
            seq![syms[relas[0].r_info as int / 0x1_0000_0000].0.st_value as nat] + rest
        } else {
            rest
        }
    }
}

/// The symbols of a table after those in `asked` were asked for in turn: each that
/// is not there yet is added at the end.
pub open spec fn with_asked(symbols: Seq<nat>, asked: Seq<nat>) -> Seq<nat>
    decreases asked.len(),
{
    if asked.len() == 0 {
        symbols
    } else if symbols.contains(asked[0]) {
        with_asked(symbols, asked.drop_first())
    } else {
        with_asked(symbols.push(asked[0]), asked.drop_first())
    }
}

/// How many different symbols of `asked` are not among `symbols`.
pub open spec fn newly_asked(symbols: Seq<nat>, asked: Seq<nat>) -> nat {
    asked.to_set().difference(symbols.to_set()).len()
}

/// Applying two lists of relocations one after the other is applying them as one
/// list: the second follows where the first succeeded, and only then.
pub proof fn law_applied_in_turn(
    memory: Map<int, u8>,
    module: ModuleArchSpecific,
    headers: Seq<SectionHeader>,
    rel_section: SectionHeader,
    syms: Seq<(Sym, String)>,
    first: Seq<Rela>,
    second: Seq<Rela>,
)
    ensures
        relocate::all_applied(memory, module, headers, rel_section, syms, first + second) == {
            let (mid, kept, done) = relocate::all_applied(
                memory,
                module,
                headers,
                rel_section,
                syms,
                first,
            );
            if done is Err {
                (mid, kept, done)
            } else {
                relocate::all_applied(mid, kept, headers, rel_section, syms, second)
            }
        },
    decreases first.len(),
{
    if first.len() == 0 {
        assert(first + second =~= second);
    } else {
        let (next, after, done) = relocate::applied(
            memory,
            module,
            headers,
            rel_section,
            syms,
            first[0],
        );
        assert((first + second).drop_first() =~= first.drop_first() + second);
        assert((first + second)[0] == first[0]);
        law_applied_in_turn(
            next,
            after,
            headers,
            rel_section,
            syms,
            first.drop_first(),
            second,
        );
    }
}

/// A list stops at its first relocation that fails: what is left, and what is
/// answered, is what that one leaves and answers, and those after it do nothing.
pub proof fn law_stops_at_failure(
    memory: Map<int, u8>,
    module: ModuleArchSpecific,
    headers: Seq<SectionHeader>,
    rel_section: SectionHeader,
    syms: Seq<(Sym, String)>,
    relas: Seq<Rela>,
    k: int,
)
    requires
        0 <= k < relas.len(),
        ({
            let (mid, kept, done) = relocate::all_applied(
                memory,
                module,
                headers,
                rel_section,
                syms,
                relas.take(k),
            );
            done is Ok && relocate::applied(
                mid,
                kept,
                headers,
                rel_section,
                syms,
                relas[k],
            ).2 is Err
        }),
    ensures
        ({
            let (mid, kept, done) = relocate::all_applied(
                memory,
                module,
                headers,
                rel_section,
                syms,
                relas.take(k),
            );
            relocate::all_applied(memory, module, headers, rel_section, syms, relas)
                == relocate::applied(mid, kept, headers, rel_section, syms, relas[k])
        }),
{
    assert(relas.take(k) + relas.skip(k) =~= relas);
    law_applied_in_turn(
        memory,
        module,
        headers,
        rel_section,
        syms,
        relas.take(k),
        relas.skip(k),
    );
}

/// One relocation moves no table, maps and unmaps nothing, adds at most the entry
/// that it goes through to the global offset table, and changes no byte outside of
/// that table and its place.
pub proof fn law_applied_frame(
    memory: Map<int, u8>,
    module: ModuleArchSpecific,
    headers: Seq<SectionHeader>,
    rel_section: SectionHeader,
    syms: Seq<(Sym, String)>,
    rela: Rela,
)
    ensures
        ({
            let (after, kept, done) = relocate::applied(
                memory,
                module,
                headers,
                rel_section,
                syms,
                rela,
            );
            &&& kept.got.shndx == module.got.shndx
            &&& kept.got.max_entries == module.got.max_entries
            &&& module.got.num_entries <= kept.got.num_entries
            &&& kept.got.num_entries <= module.got.num_entries + if uses_got(rela) {
                1int
            } else {
                0
            }
            &&& module.got.num_entries <= module.got.max_entries ==> kept.got.num_entries
                <= kept.got.max_entries
            &&& after.dom() == memory.dom()
            &&& forall|a: int|
                memory.contains_key(a) && !in_got(headers, module, a) && !touches(
                    headers,
                    rel_section,
                    rela,
                    a,
                ) ==> #[trigger] after[a] == memory[a]
        }),
{
    let (after, kept, done) = relocate::applied(
        memory,
        module,
        headers,
        rel_section,
        syms,
        rela,
    );
    let location = place(headers, rel_section, rela);
    let symbol_addr = syms[relocate::rela_sym(rela)].0.st_value;
    match relocate::rela_type(rela) {
        None => {},
        Some(ArchRelocationType::R_X86_64_GOTPCREL) => {
            let base = headers[module.got.shndx as int].sh_addr as int;
            relocation::lemma_gotpcrel_frame(
                memory,
                module.got,
                base,
                location,
                symbol_addr,
                rela.r_addend,
            );
        },
        Some(other) => {
            let effect = relocation::effect(
                other,
                location,
                relocate::rela_target(symbol_addr, rela),
            );
            relocation::law_relocated_frame(memory, location, effect);
        },
    }
}

/// A list of relocations moves no table, maps and unmaps nothing, adds at most as
/// many entries to the global offset table as relocations go through it, and
/// changes no byte outside of that table and their places, wherever it stops.
pub proof fn law_all_applied_frame(
    memory: Map<int, u8>,
    module: ModuleArchSpecific,
    headers: Seq<SectionHeader>,
    rel_section: SectionHeader,
    syms: Seq<(Sym, String)>,
    relas: Seq<Rela>,
)
    ensures
        ({
            let (after, kept, done) = relocate::all_applied(
                memory,
                module,
                headers,
                rel_section,
                syms,
                relas,
            );
            &&& kept.got.shndx == module.got.shndx
            &&& kept.got.max_entries == module.got.max_entries
            &&& module.got.num_entries <= kept.got.num_entries <= module.got.num_entries + got_uses(
                relas,
            )
            &&& module.got.num_entries <= module.got.max_entries ==> kept.got.num_entries
                <= kept.got.max_entries
            &&& after.dom() == memory.dom()
            &&& forall|a: int|
                memory.contains_key(a) && !in_got(headers, module, a) && !any_touches(
                    headers,
                    rel_section,
                    relas,
                    a,
                ) ==> #[trigger] after[a] == memory[a]
        }),
    decreases relas.len(),
{
    if relas.len() > 0 {
        let (next, mid, step) = relocate::applied(
            memory,
            module,
            headers,
            rel_section,
            syms,
            relas[0],
        );
        let (after, kept, done) = relocate::all_applied(
            memory,
            module,
            headers,
            rel_section,
            syms,
            relas,
        );
        let rest = relas.drop_first();
        law_applied_frame(memory, module, headers, rel_section, syms, relas[0]);
        law_all_applied_frame(next, mid, headers, rel_section, syms, rest);
        lemma_got_uses_first(relas);
        assert forall|a: int|
            memory.contains_key(a) && !in_got(headers, module, a) && !any_touches(
                headers,
                rel_section,
                relas,
                a,
            ) implies #[trigger] after[a] == memory[a] by {
            assert(!touches(headers, rel_section, relas[0], a));
            if any_touches(headers, rel_section, rest, a) {
                let i = choose|i: int|
                    0 <= i < rest.len() && touches(headers, rel_section, #[trigger] rest[i], a);
                assert(touches(headers, rel_section, relas[i + 1], a));
            }
            assert(next.dom().contains(a));
            assert(next[a] == memory[a]);
        }
    }
}

/// Counting from the front is counting from the back.
proof fn lemma_got_uses_first(relas: Seq<Rela>)
    requires
        relas.len() > 0,
    ensures
        got_uses(relas) == got_uses(relas.drop_first()) + if uses_got(relas[0]) {
            1nat
        } else {
            0
        },
    decreases relas.len(),
{
    if relas.len() > 1 {
        lemma_got_uses_first(relas.drop_last());
        assert(relas.drop_last().drop_first() =~= relas.drop_first().drop_last());
    } else {
        assert(relas.drop_first() =~= Seq::empty());
        assert(relas.drop_last() =~= Seq::empty());
    }
}

/// A place that no later relocation touches, and that lies outside of the global
/// offset table, holds in the end what its own relocation put there.
pub proof fn law_place_kept(
    memory: Map<int, u8>,
    module: ModuleArchSpecific,
    headers: Seq<SectionHeader>,
    rel_section: SectionHeader,
    syms: Seq<(Sym, String)>,
    relas: Seq<Rela>,
    k: int,
)
    requires
        0 <= k < relas.len(),
        relocate::all_applied(memory, module, headers, rel_section, syms, relas.take(k + 1)).2
            is Ok,
        memory::mapped(
            memory,
            place(headers, rel_section, relas[k]) as int,
            place_width(relas[k]),
        ),
        forall|a: int|
            #[trigger] touches(headers, rel_section, relas[k], a) ==> !in_got(headers, module, a)
                && !any_touches(headers, rel_section, relas.skip(k + 1), a),
    ensures
        ({
            let at = place(headers, rel_section, relas[k]) as int;
            let width = place_width(relas[k]) as nat;
            let then = relocate::all_applied(
                memory,
                module,
                headers,
                rel_section,
                syms,
                relas.take(k + 1),
            ).0;
            let last = relocate::all_applied(memory, module, headers, rel_section, syms, relas).0;
            memory::load(last, at, width) == memory::load(then, at, width)
        }),
{
    let at = place(headers, rel_section, relas[k]) as int;
    let width = place_width(relas[k]) as nat;
    let (mid, kept, done) = relocate::all_applied(
        memory,
        module,
        headers,
        rel_section,
        syms,
        relas.take(k + 1),
    );
    let last = relocate::all_applied(memory, module, headers, rel_section, syms, relas).0;
    assert(relas.take(k + 1) + relas.skip(k + 1) =~= relas);
    law_applied_in_turn(
        memory,
        module,
        headers,
        rel_section,
        syms,
        relas.take(k + 1),
        relas.skip(k + 1),
    );
    law_all_applied_frame(memory, module, headers, rel_section, syms, relas.take(k + 1));
    law_all_applied_frame(mid, kept, headers, rel_section, syms, relas.skip(k + 1));
    let found = memory::load(last, at, width);
    let put = memory::load(mid, at, width);
    assert forall|i: int| 0 <= i < width implies found[i] == put[i] by {
        assert(memory.contains_key(at + i));
        assert(mid.dom().contains(at + i));
        assert(touches(headers, rel_section, relas[k], at + i));
    }
    assert(found =~= put);
}

/// The first of the places, and the rest of them, lie outside of the global offset
/// table where all of them do.
proof fn lemma_apart_from_got(
    headers: Seq<SectionHeader>,
    module: ModuleArchSpecific,
    rel_section: SectionHeader,
    relas: Seq<Rela>,
)
    requires
        relas.len() > 0,
        apart_from_got(headers, module, rel_section, relas),
    ensures
        forall|a: int|
            in_got(headers, module, a) ==> !#[trigger] touches(headers, rel_section, relas[0], a),
        apart_from_got(headers, module, rel_section, relas.drop_first()),
{
    let rest = relas.drop_first();
    assert forall|a: int| in_got(headers, module, a) implies !#[trigger] touches(
        headers,
        rel_section,
        relas[0],
        a,
    ) by {
        assert(!any_touches(headers, rel_section, relas, a));
    }
    assert forall|a: int| in_got(headers, module, a) implies !#[trigger] any_touches(
        headers,
        rel_section,
        rest,
        a,
    ) by {
        assert(!any_touches(headers, rel_section, relas, a));
        if any_touches(headers, rel_section, rest, a) {
            let i = choose|i: int|
                0 <= i < rest.len() && touches(headers, rel_section, #[trigger] rest[i], a);
            assert(touches(headers, rel_section, relas[i + 1], a));
        }
    }
}

/// As long as the places lie outside of the global offset table, the entries that
/// it had stay in their slots.
pub proof fn law_got_entries_kept(
    memory: Map<int, u8>,
    module: ModuleArchSpecific,
    headers: Seq<SectionHeader>,
    rel_section: SectionHeader,
    syms: Seq<(Sym, String)>,
    relas: Seq<Rela>,
)
    requires
        common::table_ready(memory, headers, module.got),
        apart_from_got(headers, module, rel_section, relas),
    ensures
        ({
            let base = headers[module.got.shndx as int].sh_addr as int;
            let (after, kept, done) = relocate::all_applied(
                memory,
                module,
                headers,
                rel_section,
                syms,
                relas,
            );
            &&& common::table_ready(after, headers, kept.got)
            &&& common::table_symbols(
                memory,
                base,
                module.got.num_entries as nat,
            ).is_prefix_of(common::table_symbols(after, base, kept.got.num_entries as nat))
        }),
    decreases relas.len(),
{
    if relas.len() > 0 {
        let (next, mid, step) = relocate::applied(
            memory,
            module,
            headers,
            rel_section,
            syms,
            relas[0],
        );
        law_applied_frame(memory, module, headers, rel_section, syms, relas[0]);
        lemma_apart_from_got(headers, module, rel_section, relas);
        lemma_got_entries_step(memory, module, headers, rel_section, syms, relas[0]);
        law_got_entries_kept(next, mid, headers, rel_section, syms, relas.drop_first());
    }
}

/// After relocations that succeeded, with their places outside of the global offset
/// table, the table holds what it held and then each symbol that was asked of it and
/// was not there, once, in the order of first use. So it grew by exactly as many
/// entries as different symbols were asked for that it did not hold.
pub proof fn law_got_growth(
    memory: Map<int, u8>,
    module: ModuleArchSpecific,
    headers: Seq<SectionHeader>,
    rel_section: SectionHeader,
    syms: Seq<(Sym, String)>,
    relas: Seq<Rela>,
)
    requires
        common::table_ready(memory, headers, module.got),
        apart_from_got(headers, module, rel_section, relas),
        relocate::all_applied(memory, module, headers, rel_section, syms, relas).2 is Ok,
    ensures
        ({
            let base = headers[module.got.shndx as int].sh_addr as int;
            let before = common::table_symbols(memory, base, module.got.num_entries as nat);
            let asked = got_asked(syms, relas);
            let (after, kept, done) = relocate::all_applied(
                memory,
                module,
                headers,
                rel_section,
                syms,
                relas,
            );
            &&& common::table_symbols(after, base, kept.got.num_entries as nat) == with_asked(
                before,
                asked,
            )
            &&& kept.got.num_entries == module.got.num_entries + newly_asked(before, asked)
        }),
    decreases relas.len(),
{
    let base = headers[module.got.shndx as int].sh_addr as int;
    let before = common::table_symbols(memory, base, module.got.num_entries as nat);
    let (after, kept, done) = relocate::all_applied(
        memory,
        module,
        headers,
        rel_section,
        syms,
        relas,
    );
    let asked = got_asked(syms, relas);
    law_with_asked_len(before, asked);
    if relas.len() > 0 {
        let (next, mid, step) = relocate::applied(
            memory,
            module,
            headers,
            rel_section,
            syms,
            relas[0],
        );
        let one = seq![relas[0]];
        let rest = relas.drop_first();
        law_applied_frame(memory, module, headers, rel_section, syms, relas[0]);
        lemma_apart_from_got(headers, module, rel_section, relas);
        lemma_got_entries_step(memory, module, headers, rel_section, syms, relas[0]);
        law_got_growth(next, mid, headers, rel_section, syms, rest);
        assert(one + rest =~= relas);
        lemma_got_asked_add(syms, one, rest);
        law_asked_in_turn(before, got_asked(syms, one), got_asked(syms, rest));
    }
    assert(common::table_symbols(after, base, kept.got.num_entries as nat).len()
        == kept.got.num_entries);
}

/// Two lists ask for what the first asks for, and then for what the second does.
proof fn lemma_got_asked_add(syms: Seq<(Sym, String)>, first: Seq<Rela>, second: Seq<Rela>)
    ensures
        got_asked(syms, first + second) == got_asked(syms, first) + got_asked(syms, second),
    decreases first.len(),
{
    if first.len() == 0 {
        assert(first + second =~= second);
        assert(got_asked(syms, first) + got_asked(syms, second) =~= got_asked(syms, second));
    } else {
        let rest = first.drop_first();
        lemma_got_asked_add(syms, rest, second);
        assert((first + second).drop_first() =~= rest + second);
        assert(got_asked(syms, first + second) =~= got_asked(syms, first) + got_asked(
            syms,
            second,
        ));
    }
}

/// Asking for two lists of symbols one after the other is asking for them as one
/// list.
pub proof fn law_asked_in_turn(symbols: Seq<nat>, first: Seq<nat>, second: Seq<nat>)
    ensures
        with_asked(symbols, first + second) == with_asked(with_asked(symbols, first), second),
    decreases first.len(),
{
    if first.len() == 0 {
        assert(first + second =~= second);
    } else {
        assert((first + second).drop_first() =~= first.drop_first() + second);
        assert((first + second)[0] == first[0]);
        let next = if symbols.contains(first[0]) {
            symbols
        } else {
            symbols.push(first[0])
        };
        law_asked_in_turn(next, first.drop_first(), second);
    }
}

/// Asking for symbols adds as many as there are different ones among them that were
/// not there, whatever the order and however often each is asked for.
pub proof fn law_with_asked_len(symbols: Seq<nat>, asked: Seq<nat>)
    ensures
        with_asked(symbols, asked).len() == symbols.len() + newly_asked(symbols, asked),
    decreases asked.len(),
{
    broadcast use vstd::seq_lib::seq_to_set_is_finite;

    let missing = asked.to_set().difference(symbols.to_set());
    if asked.len() == 0 {
        assert(missing =~= Set::empty());
    } else {
        let first = asked[0];
        let rest = asked.drop_first();
        assert forall|symbol: nat| #[trigger] asked.contains(symbol) <==> symbol == first
            || rest.contains(symbol) by {
            if asked.contains(symbol) && symbol != first {
                let i = choose|i: int| 0 <= i < asked.len() && asked[i] == symbol;
                assert(rest[i - 1] == symbol);
            }
            if rest.contains(symbol) {
                let i = choose|i: int| 0 <= i < rest.len() && rest[i] == symbol;
                assert(asked[i + 1] == symbol);
            }
            assert(asked.contains(asked[0]));
        }
        if symbols.contains(first) {
            law_with_asked_len(symbols, rest);
            assert(missing =~= rest.to_set().difference(symbols.to_set()));
        } else {
            let grown = symbols.push(first);
            law_with_asked_len(grown, rest);
            let left = rest.to_set().difference(grown.to_set());
            assert forall|symbol: nat| #[trigger] grown.contains(symbol) <==> symbol == first
                || symbols.contains(symbol) by {
                if symbols.contains(symbol) {
                    let i = choose|i: int| 0 <= i < symbols.len() && symbols[i] == symbol;
                    assert(grown[i] == symbol);
                }
                assert(grown[symbols.len() as int] == first);
            }
            assert(missing =~= left.insert(first));
        }
    }
}

/// One relocation whose place lies outside of the global offset table leaves in the
/// table what asking for its entry leaves there: the symbols that it held, and after
/// a success the one that the relocation goes through.
proof fn lemma_got_entries_step(
    memory: Map<int, u8>,
    module: ModuleArchSpecific,
    headers: Seq<SectionHeader>,
    rel_section: SectionHeader,
    syms: Seq<(Sym, String)>,
    rela: Rela,
)
    requires
        common::table_ready(memory, headers, module.got),
        forall|a: int|
            in_got(headers, module, a) ==> !#[trigger] touches(headers, rel_section, rela, a),
    ensures
        ({
            let base = headers[module.got.shndx as int].sh_addr as int;
            let (after, kept, done) = relocate::applied(
                memory,
                module,
                headers,
                rel_section,
                syms,
                rela,
            );
            let before = common::table_symbols(memory, base, module.got.num_entries as nat);
            let symbols = common::table_symbols(after, base, kept.got.num_entries as nat);
            &&& common::table_ready(after, headers, kept.got)
            &&& before.is_prefix_of(symbols)
            &&& done is Ok ==> symbols == with_asked(before, got_asked(syms, seq![rela]))
        }),
{
    let base = headers[module.got.shndx as int].sh_addr as int;
    let count = module.got.num_entries as nat;
    let (after, kept, done) = relocate::applied(
        memory,
        module,
        headers,
        rel_section,
        syms,
        rela,
    );
    law_applied_frame(memory, module, headers, rel_section, syms, rela);
    assert forall|a: int|
        base <= a < base + module.got.max_entries * 8 implies #[trigger] after.contains_key(a) by {
        assert(memory.contains_key(a));
        assert(after.dom().contains(a));
    }
    let symbol_addr = syms[relocate::rela_sym(rela)].0.st_value;
    let mid = if uses_got(rela) {
        common::emit_got(memory, module.got, base, symbol_addr).0
    } else {
        memory
    };
    if uses_got(rela) {
        common::law_got_symbols(memory, headers, module.got, symbol_addr);
        common::law_got_ready(memory, headers, module.got, symbol_addr);
    }
    let before = common::table_symbols(memory, base, count);
    let symbols = common::table_symbols(after, base, kept.got.num_entries as nat);
    let emitted = common::table_symbols(mid, base, kept.got.num_entries as nat);
    assert forall|i: int| 0 <= i < kept.got.num_entries implies symbols[i] == emitted[i] by {
        let slot = memory::load(after, base + i * 8, 8);
        let same = memory::load(mid, base + i * 8, 8);
        assert forall|j: int| 0 <= j < 8 implies slot[j] == same[j] by {
            let a = base + i * 8 + j;
            assert(memory.contains_key(a));
            assert(mid.dom().contains(a));
            assert(!touches(headers, rel_section, rela, a));
            lemma_untouched(memory, module, headers, rel_section, syms, rela, a);
        }
        assert(slot =~= same);
    }
    assert(symbols =~= emitted);
    assert forall|i: int| 0 <= i < count implies before[i] == symbols[i] by {}
    let one = seq![rela];
    assert(one.drop_first() =~= Seq::empty());
    assert(got_asked(syms, one.drop_first()) =~= Seq::empty());
    if uses_got(rela) && done is Ok {
        let asked = got_asked(syms, one);
        assert(asked =~= seq![symbol_addr as nat]);
        assert(asked.drop_first() =~= Seq::empty());
        reveal_with_fuel(with_asked, 2);
        search::law_first_index(before, symbol_addr as nat);
    } else if !uses_got(rela) {
        assert(got_asked(syms, one) =~= Seq::empty());
        assert(symbols =~= before);
    }
}

/// Outside of its place, a relocation leaves what asking for its entry of the global
/// offset table leaves.
proof fn lemma_untouched(
    memory: Map<int, u8>,
    module: ModuleArchSpecific,
    headers: Seq<SectionHeader>,
    rel_section: SectionHeader,
    syms: Seq<(Sym, String)>,
    rela: Rela,
    addr: int,
)
    requires
        memory.contains_key(addr),
        !touches(headers, rel_section, rela, addr),
    ensures
        relocate::applied(memory, module, headers, rel_section, syms, rela).0[addr] == (if uses_got(
            rela,
        ) {
            common::emit_got(
                memory,
                module.got,
                headers[module.got.shndx as int].sh_addr as int,
                syms[relocate::rela_sym(rela)].0.st_value,
            ).0
        } else {
            memory
        })[addr],
{
    let location = place(headers, rel_section, rela);
    let symbol_addr = syms[relocate::rela_sym(rela)].0.st_value;
    match relocate::rela_type(rela) {
        None => {},
        Some(ArchRelocationType::R_X86_64_GOTPCREL) => {
            let base = headers[module.got.shndx as int].sh_addr as int;
            relocation::lemma_gotpcrel_place(
                memory,
                module.got,
                base,
                location,
                symbol_addr,
                rela.r_addend,
                addr,
            );
        },
        Some(other) => {
            let effect = relocation::effect(
                other,
                location,
                relocate::rela_target(symbol_addr, rela),
            );
            relocation::law_relocated_frame(memory, location, effect);
        },
    }
}

/// Relocations can be applied, whatever each of them does, when beforehand the
/// global offset table is ready, what each refers to is there, and each place is
/// mapped.
pub proof fn law_applicable_beforehand(
    memory: Map<int, u8>,
    module: ModuleArchSpecific,
    headers: Seq<SectionHeader>,
    rel_section: SectionHeader,
    syms: Seq<(Sym, String)>,
    relas: Seq<Rela>,
)
    requires
        common::table_ready(memory, headers, module.got),
        rel_section.sh_info < headers.len(),
        forall|i: int|
            0 <= i < relas.len() ==> {
                let rela = #[trigger] relas[i];
                &&& rela.r_info as int / 0x1_0000_0000 < syms.len()
                &&& headers[rel_section.sh_info as int].sh_addr + rela.r_offset <= u64::MAX
                &&& memory::mapped(
                    memory,
                    headers[rel_section.sh_info as int].sh_addr + rela.r_offset,
                    place_width(rela),
                )
            },
    ensures
        relocate::all_applicable(memory, module, headers, rel_section, syms, relas),
    decreases relas.len(),
{
    if relas.len() > 0 {
        let (next, mid, step) = relocate::applied(
            memory,
            module,
            headers,
            rel_section,
            syms,
            relas[0],
        );
        let rest = relas.drop_first();
        law_applied_frame(memory, module, headers, rel_section, syms, relas[0]);
        assert forall|a: int| #[trigger] memory.contains_key(a) implies next.contains_key(a) by {
            assert(next.dom().contains(a));
        }
        assert(common::table_ready(next, headers, mid.got)) by {
            let base = headers[module.got.shndx as int].sh_addr;
            assert forall|a: int|
                base <= a < base + module.got.max_entries * 8 implies #[trigger] next.contains_key(
                a,
            ) by {
                assert(memory.contains_key(a));
            }
        }
        assert forall|i: int| 0 <= i < rest.len() implies {
            let rela = #[trigger] rest[i];
            &&& rela.r_info as int / 0x1_0000_0000 < syms.len()
            &&& headers[rel_section.sh_info as int].sh_addr + rela.r_offset <= u64::MAX
            &&& memory::mapped(
                next,
                headers[rel_section.sh_info as int].sh_addr + rela.r_offset,
                place_width(rela),
            )
        } by {
            let rela = relas[i + 1];
            let at = headers[rel_section.sh_info as int].sh_addr + rela.r_offset;
            assert(rela == rest[i]);
            assert forall|a: int|
                at <= a < at + place_width(rela) implies #[trigger] next.contains_key(
                a,
            ) by {
                assert(memory.contains_key(a));
            }
        }
        law_applicable_beforehand(next, mid, headers, rel_section, syms, rest);
    }
}

/// A part of the relocations goes through the global offset table no more often
/// than all of them, and less often when one that does is left out.
proof fn lemma_got_uses_take(relas: Seq<Rela>, count: int)
    requires
        0 <= count <= relas.len(),
    ensures
        got_uses(relas.take(count)) <= got_uses(relas),
        count < relas.len() && uses_got(relas[count]) ==> got_uses(relas.take(count)) < got_uses(
            relas,
        ),
    decreases relas.len(),
{
    if count == relas.len() {
        assert(relas.take(count) =~= relas);
    } else {
        assert(relas.drop_last().take(count) =~= relas.take(count));
        lemma_got_uses_take(relas.drop_last(), count);
    }
}

/// The memory and the tables of the module after the relocations of several
/// sections were applied, section by section, up to the first that fails. Each
/// section of relocations comes as its header and what it holds.
pub open spec fn sections_applied(
    memory: Map<int, u8>,
    module: ModuleArchSpecific,
    headers: Seq<SectionHeader>,
    syms: Seq<(Sym, String)>,
    work: Seq<(SectionHeader, Seq<Rela>)>,
) -> (Map<int, u8>, ModuleArchSpecific, Result<(), ModuleErr>)
    decreases work.len(),
{
    if work.len() == 0 {
        (memory, module, Ok(()))
    } else {
        let (mid, kept, done) = sections_applied(memory, module, headers, syms, work.drop_last());
        if done is Err {
            (mid, kept, done)
        } else {
            relocate::all_applied(mid, kept, headers, work.last().0, syms, work.last().1)
        }
    }
}

/// How many relocations of the sections go through the global offset table.
pub open spec fn sections_got_uses(work: Seq<(SectionHeader, Seq<Rela>)>) -> nat
    decreases work.len(),
{
    if work.len() == 0 {
        0
    } else {
        sections_got_uses(work.drop_last()) + got_uses(work.last().1)
    }
}

/// Relocating several sections moves no table, and adds at most as many entries to
/// the global offset table as relocations go through it.
pub proof fn law_sections_growth(
    memory: Map<int, u8>,
    module: ModuleArchSpecific,
    headers: Seq<SectionHeader>,
    syms: Seq<(Sym, String)>,
    work: Seq<(SectionHeader, Seq<Rela>)>,
)
    ensures
        ({
            let (after, kept, done) = sections_applied(memory, module, headers, syms, work);
            &&& kept.got.shndx == module.got.shndx
            &&& kept.got.max_entries == module.got.max_entries
            &&& kept.got.num_entries <= module.got.num_entries + sections_got_uses(work)
        }),
    decreases work.len(),
{
    if work.len() > 0 {
        let (mid, kept, done) = sections_applied(memory, module, headers, syms, work.drop_last());
        law_sections_growth(memory, module, headers, syms, work.drop_last());
        law_all_applied_frame(mid, kept, headers, work.last().0, syms, work.last().1);
    }
}

/// The symbol addresses that the relocations of the sections ask of the global offset
/// table, in order.
pub open spec fn sections_got_asked(
    syms: Seq<(Sym, String)>,
    work: Seq<(SectionHeader, Seq<Rela>)>,
) -> Seq<nat>
    decreases work.len(),
{
    if work.len() == 0 {
        Seq::empty()
    } else {
        sections_got_asked(syms, work.drop_last()) + got_asked(syms, work.last().1)
    }
}

/// After several sections were relocated with success, with all places outside of the
/// global offset table, the table grew by exactly as many entries as different symbols
/// were asked for that it did not hold: they follow what it held, in the order of
/// first use.
pub proof fn law_sections_got_growth(
    memory: Map<int, u8>,
    module: ModuleArchSpecific,
    headers: Seq<SectionHeader>,
    syms: Seq<(Sym, String)>,
    work: Seq<(SectionHeader, Seq<Rela>)>,
)
    requires
        common::table_ready(memory, headers, module.got),
        forall|k: int|
            0 <= k < work.len() ==> apart_from_got(
                headers,
                module,
                (#[trigger] work[k]).0,
                work[k].1,
            ),
        sections_applied(memory, module, headers, syms, work).2 is Ok,
    ensures
        ({
            let base = headers[module.got.shndx as int].sh_addr as int;
            let before = common::table_symbols(memory, base, module.got.num_entries as nat);
            let asked = sections_got_asked(syms, work);
            let (after, kept, done) = sections_applied(memory, module, headers, syms, work);
            &&& common::table_ready(after, headers, kept.got)
            &&& common::table_symbols(after, base, kept.got.num_entries as nat) == with_asked(
                before,
                asked,
            )
            &&& kept.got.num_entries == module.got.num_entries + newly_asked(before, asked)
        }),
    decreases work.len(),
{
    let base = headers[module.got.shndx as int].sh_addr as int;
    let before = common::table_symbols(memory, base, module.got.num_entries as nat);
    let (after, kept, done) = sections_applied(memory, module, headers, syms, work);
    law_with_asked_len(before, sections_got_asked(syms, work));
    if work.len() > 0 {
        let (mid, then, part) = sections_applied(memory, module, headers, syms, work.drop_last());
        let (section, relas) = work.last();
        assert forall|k: int| 0 <= k < work.len() - 1 implies apart_from_got(
            headers,
            module,
            (#[trigger] work.drop_last()[k]).0,
            work.drop_last()[k].1,
        ) by {
            assert(work.drop_last()[k] == work[k]);
        }
        law_sections_got_growth(memory, module, headers, syms, work.drop_last());
        law_sections_growth(memory, module, headers, syms, work.drop_last());
        assert(apart_from_got(headers, module, work[work.len() - 1].0, work[work.len() - 1].1));
        assert forall|a: int| in_got(headers, then, a) implies !#[trigger] any_touches(
            headers,
            section,
            relas,
            a,
        ) by {
            assert(in_got(headers, module, a));
        }
        law_got_entries_kept(mid, then, headers, section, syms, relas);
        law_got_growth(mid, then, headers, section, syms, relas);
        law_asked_in_turn(
            before,
            sections_got_asked(syms, work.drop_last()),
            got_asked(syms, relas),
        );
    }
    assert(common::table_symbols(after, base, kept.got.num_entries as nat).len()
        == kept.got.num_entries);
}

/// The first sections need no more entries than all of them, and the next one what
/// it needs besides.
proof fn lemma_sections_got_uses_take(work: Seq<(SectionHeader, Seq<Rela>)>, count: int)
    requires
        0 <= count <= work.len(),
    ensures
        sections_got_uses(work.take(count)) <= sections_got_uses(work),
        count < work.len() ==> sections_got_uses(work.take(count)) + got_uses(work[count].1)
            <= sections_got_uses(work),
    decreases work.len(),
{
    if count == work.len() {
        assert(work.take(count) =~= work);
    } else {
        assert(work.drop_last().take(count) =~= work.take(count));
        lemma_sections_got_uses_take(work.drop_last(), count);
    }
}

/// Where the global offset table has as many free slots as relocations go through
/// it, none of them finds it full: when relocation `j` of section `k` has its turn,
/// its entry is there or there is a slot for it.
pub proof fn law_room_suffices(
    memory: Map<int, u8>,
    module: ModuleArchSpecific,
    headers: Seq<SectionHeader>,
    syms: Seq<(Sym, String)>,
    work: Seq<(SectionHeader, Seq<Rela>)>,
    k: int,
    j: int,
)
    requires
        module.got.num_entries + sections_got_uses(work) <= module.got.max_entries,
        0 <= k < work.len(),
        0 <= j < work[k].1.len(),
        uses_got(work[k].1[j]),
    ensures
        ({
            let (mid, at_section, done) = sections_applied(
                memory,
                module,
                headers,
                syms,
                work.take(k),
            );
            let (then, at_turn, turned) = relocate::all_applied(
                mid,
                at_section,
                headers,
                work[k].0,
                syms,
                work[k].1.take(j),
            );
            common::emit_got(
                then,
                at_turn.got,
                headers[module.got.shndx as int].sh_addr as int,
                syms[work[k].1[j].r_info as int / 0x1_0000_0000].0.st_value,
            ).2 is Ok
        }),
{
    let (mid, at_section, done) = sections_applied(memory, module, headers, syms, work.take(k));
    law_sections_growth(memory, module, headers, syms, work.take(k));
    law_all_applied_frame(mid, at_section, headers, work[k].0, syms, work[k].1.take(j));
    lemma_got_uses_take(work[k].1, j);
    lemma_sections_got_uses_take(work, k);
}

/// Whether `relas` are the relocations `relocs` as the file holds them, as far as
/// their types go.
pub open spec fn same_types(relas: Seq<Rela>, relocs: Seq<Reloc>) -> bool {
    &&& relas.len() == relocs.len()
    &&& forall|i: int|
        0 <= i < relas.len() ==> (#[trigger] relocs[i]).r_type == relas[i].r_info as int
            % 0x1_0000_0000
}

/// Both counts of the relocations that go through the global offset table agree.
pub proof fn law_counts_agree(relas: Seq<Rela>, relocs: Seq<Reloc>)
    requires
        same_types(relas, relocs),
    ensures
        got_uses(relas) == sections::got_relocs(relocs),
    decreases relas.len(),
{
    reveal(Seq::filter);
    if relas.len() > 0 {
        assert forall|i: int| 0 <= i < relas.len() - 1 implies (
        #[trigger] relocs.drop_last()[i]).r_type == relas.drop_last()[i].r_info as int
            % 0x1_0000_0000 by {
            assert(relocs[i].r_type == relas[i].r_info as int % 0x1_0000_0000);
        }
        law_counts_agree(relas.drop_last(), relocs.drop_last());
        assert(relocs.last().r_type == relas.last().r_info as int % 0x1_0000_0000);
    }
}

/// Whether the section at `idx` holds relocations with addends for a section that
/// takes memory: one whose flags have bit 1, whatever their other bits.
pub open spec fn for_memory(headers: Seq<SectionHeader>, idx: int) -> bool {
    &&& headers[idx].sh_type == 4
    &&& (headers[headers[idx].sh_info as int].sh_flags as int / 2) % 2 == 1
}

/// Whether `work` are sections out of `relocs`, the one at each index in `chosen`, in
/// that order: none twice, and each for a section that takes memory.
pub open spec fn work_of(
    headers: Seq<SectionHeader>,
    relocs: Seq<(usize, RelocSection<'_>)>,
    work: Seq<(SectionHeader, Seq<Rela>)>,
    chosen: Seq<int>,
) -> bool {
    &&& work.len() == chosen.len()
    &&& chosen.no_duplicates()
    &&& forall|k: int|
        0 <= k < chosen.len() ==> {
            let i = #[trigger] chosen[k];
            &&& 0 <= i < relocs.len()
            &&& for_memory(headers, relocs[i].0 as int)
            &&& same_types(work[k].1, object::reloc_entries(relocs[i].1))
        }
}

/// Whether every section of relocations that applies to a section which takes memory
/// is chosen.
pub open spec fn all_chosen(
    headers: Seq<SectionHeader>,
    relocs: Seq<(usize, RelocSection<'_>)>,
    chosen: Seq<int>,
) -> bool {
    forall|i: int|
        0 <= i < relocs.len() && for_memory(headers, (#[trigger] relocs[i]).0 as int)
            ==> chosen.contains(i)
}

/// Leaving out one of the sections leaves out what it needs.
proof fn lemma_sections_got_uses_remove(work: Seq<(SectionHeader, Seq<Rela>)>, k: int)
    requires
        0 <= k < work.len(),
    ensures
        sections_got_uses(work) == sections_got_uses(work.remove(k)) + got_uses(work[k].1),
    decreases work.len(),
{
    if k == work.len() - 1 {
        assert(work.remove(k) =~= work.drop_last());
    } else {
        lemma_sections_got_uses_remove(work.drop_last(), k);
        assert(work.remove(k).drop_last() =~= work.drop_last().remove(k));
        assert(work.remove(k).last() == work.last());
    }
}

/// The slots that are counted for a module suffice for any of its sections that take
/// memory, relocated in any order, and are exactly as many as relocations go through
/// the global offset table when all of those sections are relocated.
pub proof fn law_reserved_slots_suffice(
    headers: Seq<SectionHeader>,
    relocs: Seq<(usize, RelocSection<'_>)>,
    work: Seq<(SectionHeader, Seq<Rela>)>,
    chosen: Seq<int>,
)
    requires
        work_of(headers, relocs, work, chosen),
    ensures
        sections_got_uses(work) <= sections::total_gots(headers, relocs),
        all_chosen(headers, relocs, chosen) ==> sections_got_uses(work) == sections::total_gots(
            headers,
            relocs,
        ),
    decreases relocs.len(),
{
    if relocs.len() == 0 {
        if chosen.len() > 0 {
            assert(0 <= chosen[0] < relocs.len());
        }
    } else {
        let n = relocs.len() - 1;
        let rest = relocs.drop_last();
        prepare::law_flag_bits(headers, relocs[n].0 as int);
        if chosen.contains(n) {
            let p = choose|p: int| 0 <= p < chosen.len() && chosen[p] == n;
            let others = chosen.remove(p);
            let left = work.remove(p);
            assert forall|k: int| 0 <= k < others.len() implies {
                let i = #[trigger] others[k];
                &&& 0 <= i < rest.len()
                &&& for_memory(headers, rest[i].0 as int)
                &&& same_types(left[k].1, object::reloc_entries(rest[i].1))
            } by {
                let q = if k < p {
                    k
                } else {
                    k + 1
                };
                assert(others[k] == chosen[q] && left[k] == work[q]);
                assert(chosen[q] != chosen[p]);
            }
            assert(others.no_duplicates()) by {
                assert forall|x: int, y: int|
                    0 <= x < others.len() && 0 <= y < others.len() && x != y implies others[x]
                    != others[y] by {
                    let u = if x < p {
                        x
                    } else {
                        x + 1
                    };
                    let v = if y < p {
                        y
                    } else {
                        y + 1
                    };
                    assert(chosen[u] != chosen[v]);
                }
            }
            law_reserved_slots_suffice(headers, rest, left, others);
            lemma_sections_got_uses_remove(work, p);
            law_counts_agree(work[p].1, object::reloc_entries(relocs[n].1));
            if all_chosen(headers, relocs, chosen) {
                assert forall|i: int|
                    0 <= i < rest.len() && for_memory(
                        headers,
                        (#[trigger] rest[i]).0 as int,
                    ) implies others.contains(i) by {
                    assert(rest[i] == relocs[i]);
                    let q = choose|q: int| 0 <= q < chosen.len() && chosen[q] == i;
                    let k = if q < p {
                        q
                    } else {
                        q - 1
                    };
                    assert(others[k] == i);
                }
            }
        } else {
            assert forall|k: int| 0 <= k < chosen.len() implies {
                let i = #[trigger] chosen[k];
                &&& 0 <= i < rest.len()
                &&& for_memory(headers, rest[i].0 as int)
                &&& same_types(work[k].1, object::reloc_entries(rest[i].1))
            } by {
                assert(chosen.contains(chosen[k]));
                assert(rest[chosen[k]] == relocs[chosen[k]]);
            }
            law_reserved_slots_suffice(headers, rest, work, chosen);
            if all_chosen(headers, relocs, chosen) {
                assert(relocs[n] == relocs.last());
                assert forall|i: int|
                    0 <= i < rest.len() && for_memory(
                        headers,
                        (#[trigger] rest[i]).0 as int,
                    ) implies chosen.contains(i) by {
                    assert(rest[i] == relocs[i]);
                }
            }
        }
    }
}

/// The global offset table that is prepared for a module has a free slot for every
/// relocation that goes through it, whichever of its sections that take memory are
/// relocated, and in whatever order.
pub proof fn law_prepared_got_suffices(
    headers: Seq<SectionHeader>,
    section: ModSection,
    found: Option<int>,
    relocs: Seq<(usize, RelocSection<'_>)>,
    work: Seq<(SectionHeader, Seq<Rela>)>,
    chosen: Seq<int>,
)
    requires
        prepare::prepare_fits(
            found,
            prepare::got_layout(sections::GOT_ENTRY_ALIGN),
            sections::total_gots(headers, relocs) as int,
            0,
        ),
        work_of(headers, relocs, work, chosen),
    ensures
        ({
            let (after, got, done) = prepare::prepared(
                headers,
                section,
                found,
                prepare::got_layout(sections::GOT_ENTRY_ALIGN),
                sections::total_gots(headers, relocs) as int,
                0,
            );
            done is Ok && sections::total_gots(headers, relocs) > 0 ==> {
                &&& got.num_entries == 0
                &&& got.max_entries == sections::total_gots(headers, relocs)
                &&& got.num_entries + sections_got_uses(work) <= got.max_entries
            }
        }),
{
    law_reserved_slots_suffice(headers, relocs, work, chosen);
}

/// Whether the place at `location` leads to `number`, modulo `2^64`, in the way of the
/// relocation type with the number `code`: as 64 bits, as 32 bits without sign, as 32
/// bits with sign, or as a distance from the place in 32 or in 64 bits.
pub open spec fn leads_to(memory: Map<int, u8>, code: int, location: int, number: int) -> bool {
    let m32: int = 0x1_0000_0000;
    let m64: int = 0x1_0000_0000_0000_0000;
    ||| code == 0
    ||| code == 1 && memory::u64_at(memory, location) == number % m64
    ||| code == 10 && memory::u32_at(memory, location) == number % m64
    ||| code == 11 && memory::i32_at(memory, location) % m64 == number % m64
    ||| (code == 2 || code == 4) && (location + memory::u32_at(memory, location)) % m32 == number
        % m32
    ||| code == 24 && (location + memory::u64_at(memory, location)) % m64 == number % m64
}

/// Whether `number` can be put in the way of the relocation type with the number
/// `code`, among those that do not go through the global offset table.
pub open spec fn can_lead_to(code: int, number: int) -> bool {
    ||| code == 0 || code == 1 || code == 2 || code == 4 || code == 24
    ||| code == 10 && relocation::fits_half(number)
    ||| code == 11 && relocation::fits_signed_half(number)
}

/// What a relocation refers to: the value of its symbol plus its addend.
pub open spec fn referred(syms: Seq<(Sym, String)>, rela: Rela) -> int {
    syms[rela.r_info as int / 0x1_0000_0000].0.st_value + rela.r_addend
}

/// Whether what the relocations need is there: the section that they are for, each
/// symbol, and each place.
pub open spec fn all_there(
    memory: Map<int, u8>,
    headers: Seq<SectionHeader>,
    rel_section: SectionHeader,
    syms: Seq<(Sym, String)>,
    relas: Seq<Rela>,
) -> bool {
    &&& rel_section.sh_info < headers.len()
    &&& forall|i: int|
        0 <= i < relas.len() ==> {
            let rela = #[trigger] relas[i];
            let location = headers[rel_section.sh_info as int].sh_addr + rela.r_offset;
            &&& rela.r_info as int / 0x1_0000_0000 < syms.len()
            &&& location <= u64::MAX
            &&& memory::mapped(memory, location, place_width(rela))
        }
}

/// The relocations before one, that one, and those after it, each applied to what was
/// left, are the whole list, and all of them succeeded where it did.
proof fn lemma_split(
    memory: Map<int, u8>,
    module: ModuleArchSpecific,
    headers: Seq<SectionHeader>,
    rel_section: SectionHeader,
    syms: Seq<(Sym, String)>,
    relas: Seq<Rela>,
    k: int,
)
    requires
        0 <= k < relas.len(),
        relocate::all_applied(memory, module, headers, rel_section, syms, relas).2 is Ok,
    ensures
        ({
            let (mid, kept, done) = relocate::all_applied(
                memory,
                module,
                headers,
                rel_section,
                syms,
                relas.take(k),
            );
            let (then, grown, turned) = relocate::all_applied(
                mid,
                kept,
                headers,
                rel_section,
                syms,
                seq![relas[k]],
            );
            &&& done is Ok && turned is Ok
            &&& mid.dom() == memory.dom() && then.dom() == memory.dom()
            &&& kept.got.shndx == module.got.shndx && kept.got.max_entries == module.got.max_entries
            &&& grown.got.shndx == module.got.shndx && grown.got.max_entries
                == module.got.max_entries
            &&& relocate::all_applied(memory, module, headers, rel_section, syms, relas.take(k + 1))
                == (then, grown, turned)
            &&& relocate::all_applied(memory, module, headers, rel_section, syms, relas)
                == relocate::all_applied(then, grown, headers, rel_section, syms, relas.skip(k + 1))
        }),
{
    let (mid, kept, done) = relocate::all_applied(
        memory,
        module,
        headers,
        rel_section,
        syms,
        relas.take(k),
    );
    let one = seq![relas[k]];
    assert(relas.take(k) + relas.skip(k) =~= relas);
    assert(relas.take(k) + one =~= relas.take(k + 1));
    assert(relas.take(k + 1) + relas.skip(k + 1) =~= relas);
    law_applied_in_turn(
        memory,
        module,
        headers,
        rel_section,
        syms,
        relas.take(k),
        relas.skip(k),
    );
    law_applied_in_turn(memory, module, headers, rel_section, syms, relas.take(k), one);
    law_applied_in_turn(
        memory,
        module,
        headers,
        rel_section,
        syms,
        relas.take(k + 1),
        relas.skip(k + 1),
    );
    law_all_applied_frame(memory, module, headers, rel_section, syms, relas.take(k));
    law_all_applied_frame(mid, kept, headers, rel_section, syms, one);
}

/// After a list of relocations was applied with success, the place of each of them that
/// does not go through the global offset table leads to the value of its symbol plus
/// its addend, if it lies outside of that table and no later place overlaps it.
pub proof fn law_list_resolves(
    memory: Map<int, u8>,
    module: ModuleArchSpecific,
    headers: Seq<SectionHeader>,
    rel_section: SectionHeader,
    syms: Seq<(Sym, String)>,
    relas: Seq<Rela>,
    k: int,
)
    requires
        0 <= k < relas.len(),
        all_there(memory, headers, rel_section, syms, relas),
        relas[k].r_info as int % 0x1_0000_0000 != 9,
        relocate::all_applied(memory, module, headers, rel_section, syms, relas).2 is Ok,
        forall|a: int|
            #[trigger] touches(headers, rel_section, relas[k], a) ==> !in_got(headers, module, a)
                && !any_touches(headers, rel_section, relas.skip(k + 1), a),
    ensures
        leads_to(
            relocate::all_applied(memory, module, headers, rel_section, syms, relas).0,
            relas[k].r_info as int % 0x1_0000_0000,
            headers[rel_section.sh_info as int].sh_addr + relas[k].r_offset,
            referred(syms, relas[k]),
        ),
{
    let rela = relas[k];
    let at = headers[rel_section.sh_info as int].sh_addr + rela.r_offset;
    let (mid, kept, done) = relocate::all_applied(
        memory,
        module,
        headers,
        rel_section,
        syms,
        relas.take(k),
    );
    let then = relocate::all_applied(
        memory,
        module,
        headers,
        rel_section,
        syms,
        relas.take(k + 1),
    ).0;
    let last = relocate::all_applied(memory, module, headers, rel_section, syms, relas).0;
    lemma_split(memory, module, headers, rel_section, syms, relas, k);
    assert forall|a: int|
        at <= a < at + place_width(rela) implies #[trigger] mid.contains_key(a) by {
        assert(memory.contains_key(a));
        assert(mid.dom().contains(a));
    }
    relocate::law_direct_relocation(mid, kept, headers, rel_section, syms, rela);
    law_place_kept(memory, module, headers, rel_section, syms, relas, k);
    memory::law_numbers_at(then, at);
    memory::law_numbers_at(last, at);
}

/// Where all places lie outside of the global offset table, so do some of them.
proof fn lemma_some_apart(
    headers: Seq<SectionHeader>,
    module: ModuleArchSpecific,
    other: ModuleArchSpecific,
    rel_section: SectionHeader,
    relas: Seq<Rela>,
    from: int,
    to: int,
)
    requires
        0 <= from <= to <= relas.len(),
        apart_from_got(headers, module, rel_section, relas),
        other.got.shndx == module.got.shndx,
        other.got.max_entries == module.got.max_entries,
    ensures
        apart_from_got(headers, other, rel_section, relas.subrange(from, to)),
{
    let some = relas.subrange(from, to);
    assert forall|a: int| in_got(headers, other, a) implies !#[trigger] any_touches(
        headers,
        rel_section,
        some,
        a,
    ) by {
        assert(in_got(headers, module, a));
        assert(!any_touches(headers, rel_section, relas, a));
        if any_touches(headers, rel_section, some, a) {
            let i = choose|i: int|
                0 <= i < some.len() && touches(headers, rel_section, #[trigger] some[i], a);
            assert(touches(headers, rel_section, relas[from + i], a));
        }
    }
}

/// After a list of relocations was applied with success, with all places outside of the
/// global offset table, the place of each that goes through the table leads, with sign
/// and counted from the place, to its addend past a slot in use that holds the value of
/// its symbol, if no later place overlaps it.
pub proof fn law_list_resolves_through_got(
    memory: Map<int, u8>,
    module: ModuleArchSpecific,
    headers: Seq<SectionHeader>,
    rel_section: SectionHeader,
    syms: Seq<(Sym, String)>,
    relas: Seq<Rela>,
    k: int,
)
    requires
        0 <= k < relas.len(),
        memory::addressable(memory),
        all_there(memory, headers, rel_section, syms, relas),
        common::table_ready(memory, headers, module.got),
        apart_from_got(headers, module, rel_section, relas),
        relas[k].r_info as int % 0x1_0000_0000 == 9,
        relocate::all_applied(memory, module, headers, rel_section, syms, relas).2 is Ok,
        forall|a: int|
            #[trigger] touches(headers, rel_section, relas[k], a) ==> !any_touches(
                headers,
                rel_section,
                relas.skip(k + 1),
                a,
            ),
    ensures
        ({
            let (last, end, done) = relocate::all_applied(
                memory,
                module,
                headers,
                rel_section,
                syms,
                relas,
            );
            let base = headers[module.got.shndx as int].sh_addr as int;
            let location = headers[rel_section.sh_info as int].sh_addr + relas[k].r_offset;
            let m64: int = 0x1_0000_0000_0000_0000;
            exists|i: int|
                {
                    &&& 0 <= i < end.got.num_entries
                    &&& #[trigger] memory::u64_at(last, base + i * 8)
                        == syms[relas[k].r_info as int / 0x1_0000_0000].0.st_value
                    &&& (location + memory::i32_at(last, location)) % m64 == (base + i * 8
                        + relas[k].r_addend) % m64
                }
        }),
{
    let rela = relas[k];
    let one = seq![rela];
    let rest = relas.skip(k + 1);
    let base = headers[module.got.shndx as int].sh_addr as int;
    let at = headers[rel_section.sh_info as int].sh_addr + rela.r_offset;
    let symbol_addr = syms[rela.r_info as int / 0x1_0000_0000].0.st_value;
    let (mid, kept, done) = relocate::all_applied(
        memory,
        module,
        headers,
        rel_section,
        syms,
        relas.take(k),
    );
    let (then, grown, turned) = relocate::all_applied(
        mid,
        kept,
        headers,
        rel_section,
        syms,
        one,
    );
    let (last, end, ended) = relocate::all_applied(
        memory,
        module,
        headers,
        rel_section,
        syms,
        relas,
    );
    lemma_split(memory, module, headers, rel_section, syms, relas, k);
    lemma_some_apart(headers, module, module, rel_section, relas, 0, k);
    assert(relas.subrange(0, k) =~= relas.take(k));
    lemma_some_apart(headers, module, kept, rel_section, relas, k, k + 1);
    assert(relas.subrange(k, k + 1) =~= one);
    lemma_some_apart(headers, module, grown, rel_section, relas, k + 1, relas.len() as int);
    assert(relas.subrange(k + 1, relas.len() as int) =~= rest);
    law_got_entries_kept(memory, module, headers, rel_section, syms, relas.take(k));
    law_got_entries_kept(mid, kept, headers, rel_section, syms, one);
    law_got_entries_kept(then, grown, headers, rel_section, syms, rest);
    assert forall|a: int| at <= a < at + 4 implies #[trigger] mid.contains_key(a) by {
        assert(memory.contains_key(a));
        assert(mid.dom().contains(a));
    }
    assert forall|a: int| #[trigger] mid.contains_key(a) implies 0 <= a <= u64::MAX by {
        assert(memory.dom().contains(a));
        assert(memory.contains_key(a));
    }
    assert(common::table_ready(mid, headers, kept.got));
    relocate::law_got_relocation(mid, kept, headers, rel_section, syms, rela);
    common::law_got_entry_holds_symbol(mid, headers, kept.got, symbol_addr);
    common::law_got_ready(mid, headers, kept.got, symbol_addr);
    let (emitted, held, entry) = common::emit_got(mid, kept.got, base, symbol_addr);
    let slot = entry->Ok_0;
    let i = choose|i: int| 0 <= i < held.num_entries && slot.0 == #[trigger] (base + i * 8);
    let found = memory::load(then, slot.0 as int, 8);
    let put = memory::load(emitted, slot.0 as int, 8);
    assert(one[0] == rela);
    assert forall|j: int| 0 <= j < 8 implies found[j] == put[j] by {
        let a = slot.0 + j;
        assert(mid.contains_key(a));
        assert(in_got(headers, kept, a));
        assert(!any_touches(headers, rel_section, one, a));
        assert(!touches(headers, rel_section, one[0], a));
    }
    assert(found =~= put);
    common::lemma_symbols_at(then, base, grown.got.num_entries as nat);
    common::lemma_symbols_at(last, base, end.got.num_entries as nat);
    memory::law_numbers_at(then, slot.0 as int);
    vstd::arithmetic::power2::lemma2_to64_rest();
    bytes::lemma_decode_encode(symbol_addr as nat, 8);
    let symbols = common::table_symbols(then, base, grown.got.num_entries as nat);
    let final_symbols = common::table_symbols(last, base, end.got.num_entries as nat);
    assert(symbols[i] == memory::u64_at(then, base + i * 8));
    assert(symbols[i] == symbol_addr);
    assert(final_symbols[i] == symbols[i]);
    assert(final_symbols[i] == memory::u64_at(last, base + i * 8));
    assert forall|a: int| #[trigger] touches(headers, rel_section, rela, a) implies !in_got(
        headers,
        module,
        a,
    ) && !any_touches(headers, rel_section, rest, a) by {
        if in_got(headers, module, a) {
            assert(!any_touches(headers, rel_section, relas, a));
            assert(!touches(headers, rel_section, relas[k], a));
        }
    }
    law_place_kept(memory, module, headers, rel_section, syms, relas, k);
    memory::law_numbers_at(then, at);
    memory::law_numbers_at(last, at);
}

/// When a list of relocations has to succeed: none goes through the global offset table,
/// all are of a supported type and refer to something that fits, and the places hold
/// zeros and do not overlap. Where the places are does not matter.
pub proof fn law_list_succeeds(
    memory: Map<int, u8>,
    module: ModuleArchSpecific,
    headers: Seq<SectionHeader>,
    rel_section: SectionHeader,
    syms: Seq<(Sym, String)>,
    relas: Seq<Rela>,
)
    requires
        all_there(memory, headers, rel_section, syms, relas),
        forall|i: int|
            0 <= i < relas.len() ==> can_lead_to(
                (#[trigger] relas[i]).r_info as int % 0x1_0000_0000,
                referred(syms, relas[i]),
            ),
        forall|i: int|
            0 <= i < relas.len() ==> memory::zeros_at(
                memory,
                headers[rel_section.sh_info as int].sh_addr + (#[trigger] relas[i]).r_offset,
                place_width(relas[i]),
            ),
        forall|i: int, j: int|
            0 <= i < j < relas.len() ==> (#[trigger] relas[i]).r_offset + place_width(
                relas[i],
            ) <= (#[trigger] relas[j]).r_offset || relas[j].r_offset + place_width(relas[j])
                <= relas[i].r_offset,
    ensures
        relocate::all_applied(memory, module, headers, rel_section, syms, relas).2 is Ok,
    decreases relas.len(),
{
    if relas.len() > 0 {
        let first = relas[0];
        let one = seq![first];
        let rest = relas.drop_first();
        let start = headers[rel_section.sh_info as int].sh_addr as int;
        let (next, kept, done) = relocate::all_applied(
            memory,
            module,
            headers,
            rel_section,
            syms,
            one,
        );
        let at = start + first.r_offset;
        assert(forall|a: int|
            at <= a < at + place_width(first) ==> #[trigger] memory.contains_key(a));
        relocate::law_direct_relocation(memory, module, headers, rel_section, syms, first);
        assert(one + rest =~= relas);
        law_applied_in_turn(memory, module, headers, rel_section, syms, one, rest);
        assert forall|i: int| 0 <= i < rest.len() implies {
            let rela = #[trigger] rest[i];
            let location = start + rela.r_offset;
            &&& rela.r_info as int / 0x1_0000_0000 < syms.len()
            &&& location <= u64::MAX
            &&& memory::mapped(next, location, place_width(rela))
            &&& memory::zeros_at(next, location, place_width(rela))
            &&& can_lead_to(rela.r_info as int % 0x1_0000_0000, referred(syms, rela))
        } by {
            let rela = relas[i + 1];
            let location = start + rela.r_offset;
            assert(rela == rest[i]);
            assert(first.r_offset + place_width(first) <= rela.r_offset || rela.r_offset
                + place_width(rela) <= first.r_offset);
            assert forall|a: int|
                location <= a < location + place_width(
                    rela,
                ) implies #[trigger] next.contains_key(a) by {
                assert(memory.contains_key(a));
                assert(next.dom().contains(a));
            }
            assert forall|a: int|
                location <= a < location + place_width(rela) implies #[trigger] next[a]
                == 0 by {
                assert(memory.contains_key(a));
                assert(memory[a] == 0);
            }
        }
        assert forall|i: int, j: int| 0 <= i < j < rest.len() implies (
        #[trigger] rest[i]).r_offset + place_width(rest[i]) <= (
        #[trigger] rest[j]).r_offset || rest[j].r_offset + place_width(rest[j])
            <= rest[i].r_offset by {
            assert(rest[i] == relas[i + 1] && rest[j] == relas[j + 1]);
        }
        law_list_succeeds(next, kept, headers, rel_section, syms, rest);
    }
}

} // verus!
