//! Inspecting a flake: the tabular model of a flake's outputs. Fetching
//! the flake and drawing the table are the caller's concern; here stand the
//! rows, the titles and the runnable commands each table advertises.

use vstd::prelude::*;

use crate::bytes::clone_bytes;

verus! {

/// Row in a `FlakeOutputTable`: one flake output with its description.
pub struct Row {
    pub name: Vec<u8>,
    pub description: Vec<u8>,
}

/// Mathematical image of a `Row`.
pub struct RowView {
    pub name: Seq<u8>,
    pub description: Seq<u8>,
}

impl View for Row {
    type V = RowView;

    open spec fn view(&self) -> RowView {
        RowView { name: self.name@, description: self.description@ }
    }
}

/// The images of a sequence of rows.
pub open spec fn row_views(s: Seq<Row>) -> Seq<RowView> {
    Seq::new(s.len(), |i: int| s[i]@)
}

/// Tabular representation of one set of flake outputs.
pub struct FlakeOutputTable {
    /// Rows of the table.
    pub rows: Vec<Row>,
    /// Title of the table.
    pub title: Vec<u8>,
    /// Command to run the outputs in the `name` column.
    pub command: Vec<u8>,
}

/// The images of one schema section: each output's name with its optional
/// description.
pub open spec fn section_views(s: Seq<(Vec<u8>, Option<Vec<u8>>)>) -> Seq<(Seq<u8>, Option<Seq<u8>>)> {
    Seq::new(
        s.len(),
        |i: int|
            (
                s[i].0@,
                match s[i].1 {
                    Some(d) => Some(d@),
                    None => None,
                },
            ),
    )
}

/// The rows a whole schema section turns into, in its order.
pub open spec fn rows_of(sec: Seq<(Seq<u8>, Option<Seq<u8>>)>) -> Seq<RowView> {
    Seq::new(sec.len(), |i: int| row_of(sec[i].0, sec[i].1))
}

/// The row a named output with an optional description turns into.
pub open spec fn row_of(name: Seq<u8>, description: Option<Seq<u8>>) -> RowView {
    RowView {
        name,
        description: match description {
            Some(d) => d,
            None => missing_description(),
        },
    }
}

impl Row {
    /// Turns a name-keyed mapping of outputs, in its key order, into rows;
    /// an output without a description shows the placeholder text.
    pub fn vec_from_btreemap(map: Vec<(Vec<u8>, Option<Vec<u8>>)>) -> (r: Vec<Row>)
        ensures
            row_views(r@) == rows_of(section_views(map@)),
            r@.len() == map@.len(),
    {
        let mut r: Vec<Row> = Vec::new();
        let mut rest = map;
        let ghost all = map@;
        while rest.len() > 0
            invariant
                r@.len() + rest@.len() == all.len(),
                forall|i: int| 0 <= i < rest@.len() ==> rest@[i] == all[r@.len() + i],
                forall|i: int|
                    0 <= i < r@.len() ==> row_views(r@)[i] == row_of(
                        all[i].0@,
                        match all[i].1 {
                            Some(d) => Some(d@),
                            None => None,
                        },
                    ),
            decreases rest@.len(),
        {
            let ghost pre_rest = rest@;
            let (name, description) = rest.remove(0);
            let row = Row {
                name,
                description: match description {
                    Some(d) => d,
                    None => make_missing_description(),
                },
            };
            let ghost pre = r@;
            r.push(row);
            proof {
                let idx = pre.len() as int;
                assert(pre_rest[0] == all[idx]);
                assert forall|i: int| 0 <= i < r@.len() implies row_views(r@)[i] == row_of(
                    all[i].0@,
                    match all[i].1 {
                        Some(d) => Some(d@),
                        None => None,
                    },
                ) by {
                    if i < idx {
                        assert(r@[i] == pre[i]);
                        assert(row_views(pre)[i] == pre[i]@);
                    } else {
                        assert(r@[i] == row);
                    }
                }
                assert forall|i: int| 0 <= i < rest@.len() implies rest@[i] == all[r@.len()
                    + i] by {
                    assert(rest@[i] == pre_rest[i + 1]);
                }
            }
        }
        proof {
            assert(row_views(r@) =~= rows_of(section_views(all)));
        }
        r
    }
}

/// The output sets of a flake that the inspection shows, each a name-keyed
/// mapping in its key order, with an optional description per output.
pub struct FlakeSchema {
    pub packages: Vec<(Vec<u8>, Option<Vec<u8>>)>,
    pub devshells: Vec<(Vec<u8>, Option<Vec<u8>>)>,
    pub apps: Vec<(Vec<u8>, Option<Vec<u8>>)>,
    pub checks: Vec<(Vec<u8>, Option<Vec<u8>>)>,
    pub nixos_configurations: Vec<(Vec<u8>, Option<Vec<u8>>)>,
}

/// The command column header of a table whose outputs are run with the
/// given command against the given flake: `cmd flake#<name>`.
pub open spec fn flake_command(prefix: Seq<u8>, flake_url: Seq<u8>) -> Seq<u8> {
    prefix + flake_url + attr_suffix()
}

fn make_flake_command(prefix: Vec<u8>, flake_url: &Vec<u8>) -> (r: Vec<u8>)
    ensures
        r@ == flake_command(prefix@, flake_url@),
{
    let mut r = prefix;
    let mut f = clone_bytes(flake_url);
    r.append(&mut f);
    let mut s = make_attr_suffix();
    r.append(&mut s);
    r
}

/// The inspection command: which flake to show outputs for.
pub struct ShowConfig {
    /// The flake to show outputs for.
    pub flake_url: Vec<u8>,
}

impl ShowConfig {
    /// The five output tables of a flake, in display order: packages,
    /// devshells, apps, checks, NixOS configurations — each with its title
    /// and the command that runs an output of that table.
    pub fn output_tables(&self, schema: FlakeSchema) -> (r: Vec<FlakeOutputTable>)
        ensures
            r@.len() == 5,
            r@[0].title@ == title_packages() && r@[0].command@ == flake_command(
                cmd_build(),
                self.flake_url@,
            ) && row_views(r@[0].rows@) == rows_of(section_views(schema.packages@)),
            r@[1].title@ == title_devshells() && r@[1].command@ == flake_command(
                cmd_develop(),
                self.flake_url@,
            ) && row_views(r@[1].rows@) == rows_of(section_views(schema.devshells@)),
            r@[2].title@ == title_apps() && r@[2].command@ == flake_command(
                cmd_run(),
                self.flake_url@,
            ) && row_views(r@[2].rows@) == rows_of(section_views(schema.apps@)),
            r@[3].title@ == title_checks() && r@[3].command@ == cmd_check() && row_views(
                r@[3].rows@,
            ) == rows_of(section_views(schema.checks@)),
            r@[4].title@ == title_nixos() && r@[4].command@ == cmd_nixos() && row_views(
                r@[4].rows@,
            ) == rows_of(section_views(schema.nixos_configurations@)),
    {
        let mut r: Vec<FlakeOutputTable> = Vec::new();
        r.push(FlakeOutputTable {
            rows: Row::vec_from_btreemap(schema.packages),
            title: make_title_packages(),
            command: make_flake_command(make_cmd_build(), &self.flake_url),
        });
        r.push(FlakeOutputTable {
            rows: Row::vec_from_btreemap(schema.devshells),
            title: make_title_devshells(),
            command: make_flake_command(make_cmd_develop(), &self.flake_url),
        });
        r.push(FlakeOutputTable {
            rows: Row::vec_from_btreemap(schema.apps),
            title: make_title_apps(),
            command: make_flake_command(make_cmd_run(), &self.flake_url),
        });
        r.push(FlakeOutputTable {
            rows: Row::vec_from_btreemap(schema.checks),
            title: make_title_checks(),
            command: make_cmd_check(),
        });
        r.push(FlakeOutputTable {
            rows: Row::vec_from_btreemap(schema.nixos_configurations),
            title: make_title_nixos(),
            command: make_cmd_nixos(),
        });
        r
    }
}

/// The bytes of `Packages`.
pub open spec fn title_packages() -> Seq<u8> {
    seq![80u8, 97u8, 99u8, 107u8, 97u8, 103u8, 101u8, 115u8]
}

fn make_title_packages() -> (r: Vec<u8>)
    ensures
        r@ == title_packages(),
{
    let mut v: Vec<u8> = Vec::new();
    v.push(80);
    v.push(97);
    v.push(99);
    v.push(107);
    v.push(97);
    v.push(103);
    v.push(101);
    v.push(115);
    proof {
        assert(v@ =~= title_packages());
    }
    v
}

/// The bytes of `Devshells`.
pub open spec fn title_devshells() -> Seq<u8> {
    seq![68u8, 101u8, 118u8, 115u8, 104u8, 101u8, 108u8, 108u8, 115u8]
}

fn make_title_devshells() -> (r: Vec<u8>)
    ensures
        r@ == title_devshells(),
{
    let mut v: Vec<u8> = Vec::new();
    v.push(68);
    v.push(101);
    v.push(118);
    v.push(115);
    v.push(104);
    v.push(101);
    v.push(108);
    v.push(108);
    v.push(115);
    proof {
        assert(v@ =~= title_devshells());
    }
    v
}

/// The bytes of `Apps`.
pub open spec fn title_apps() -> Seq<u8> {
    seq![65u8, 112u8, 112u8, 115u8]
}

fn make_title_apps() -> (r: Vec<u8>)
    ensures
        r@ == title_apps(),
{
    let mut v: Vec<u8> = Vec::new();
    v.push(65);
    v.push(112);
    v.push(112);
    v.push(115);
    proof {
        assert(v@ =~= title_apps());
    }
    v
}

/// The bytes of `Checks`.
pub open spec fn title_checks() -> Seq<u8> {
    seq![67u8, 104u8, 101u8, 99u8, 107u8, 115u8]
}

fn make_title_checks() -> (r: Vec<u8>)
    ensures
        r@ == title_checks(),
{
    let mut v: Vec<u8> = Vec::new();
    v.push(67);
    v.push(104);
    v.push(101);
    v.push(99);
    v.push(107);
    v.push(115);
    proof {
        assert(v@ =~= title_checks());
    }
    v
}

/// The bytes of `NixOS Configurations`.
pub open spec fn title_nixos() -> Seq<u8> {
    seq![78u8, 105u8, 120u8, 79u8, 83u8, 32u8, 67u8, 111u8, 110u8, 102u8, 105u8, 103u8, 117u8, 114u8, 97u8, 116u8, 105u8, 111u8, 110u8, 115u8]
}

fn make_title_nixos() -> (r: Vec<u8>)
    ensures
        r@ == title_nixos(),
{
    let mut v: Vec<u8> = Vec::new();
    v.push(78);
    v.push(105);
    v.push(120);
    v.push(79);
    v.push(83);
    v.push(32);
    v.push(67);
    v.push(111);
    v.push(110);
    v.push(102);
    v.push(105);
    v.push(103);
    v.push(117);
    v.push(114);
    v.push(97);
    v.push(116);
    v.push(105);
    v.push(111);
    v.push(110);
    v.push(115);
    proof {
        assert(v@ =~= title_nixos());
    }
    v
}

/// The bytes of `nix build `.
pub open spec fn cmd_build() -> Seq<u8> {
    seq![110u8, 105u8, 120u8, 32u8, 98u8, 117u8, 105u8, 108u8, 100u8, 32u8]
}

fn make_cmd_build() -> (r: Vec<u8>)
    ensures
        r@ == cmd_build(),
{
    let mut v: Vec<u8> = Vec::new();
    v.push(110);
    v.push(105);
    v.push(120);
    v.push(32);
    v.push(98);
    v.push(117);
    v.push(105);
    v.push(108);
    v.push(100);
    v.push(32);
    proof {
        assert(v@ =~= cmd_build());
    }
    v
}

/// The bytes of `nix develop `.
pub open spec fn cmd_develop() -> Seq<u8> {
    seq![110u8, 105u8, 120u8, 32u8, 100u8, 101u8, 118u8, 101u8, 108u8, 111u8, 112u8, 32u8]
}

fn make_cmd_develop() -> (r: Vec<u8>)
    ensures
        r@ == cmd_develop(),
{
    let mut v: Vec<u8> = Vec::new();
    v.push(110);
    v.push(105);
    v.push(120);
    v.push(32);
    v.push(100);
    v.push(101);
    v.push(118);
    v.push(101);
    v.push(108);
    v.push(111);
    v.push(112);
    v.push(32);
    proof {
        assert(v@ =~= cmd_develop());
    }
    v
}

/// The bytes of `nix run `.
pub open spec fn cmd_run() -> Seq<u8> {
    seq![110u8, 105u8, 120u8, 32u8, 114u8, 117u8, 110u8, 32u8]
}

fn make_cmd_run() -> (r: Vec<u8>)
    ensures
        r@ == cmd_run(),
{
    let mut v: Vec<u8> = Vec::new();
    v.push(110);
    v.push(105);
    v.push(120);
    v.push(32);
    v.push(114);
    v.push(117);
    v.push(110);
    v.push(32);
    proof {
        assert(v@ =~= cmd_run());
    }
    v
}

/// The bytes of `nix flake check`.
pub open spec fn cmd_check() -> Seq<u8> {
    seq![110u8, 105u8, 120u8, 32u8, 102u8, 108u8, 97u8, 107u8, 101u8, 32u8, 99u8, 104u8, 101u8, 99u8, 107u8]
}

fn make_cmd_check() -> (r: Vec<u8>)
    ensures
        r@ == cmd_check(),
{
    let mut v: Vec<u8> = Vec::new();
    v.push(110);
    v.push(105);
    v.push(120);
    v.push(32);
    v.push(102);
    v.push(108);
    v.push(97);
    v.push(107);
    v.push(101);
    v.push(32);
    v.push(99);
    v.push(104);
    v.push(101);
    v.push(99);
    v.push(107);
    proof {
        assert(v@ =~= cmd_check());
    }
    v
}

/// The bytes of `nixos-rebuild switch --flake .#<name>`.
pub open spec fn cmd_nixos() -> Seq<u8> {
    seq![110u8, 105u8, 120u8, 111u8, 115u8, 45u8, 114u8, 101u8, 98u8, 117u8, 105u8, 108u8, 100u8, 32u8, 115u8, 119u8, 105u8, 116u8, 99u8, 104u8, 32u8, 45u8, 45u8, 102u8, 108u8, 97u8, 107u8, 101u8, 32u8, 46u8, 35u8, 60u8, 110u8, 97u8, 109u8, 101u8, 62u8]
}

fn make_cmd_nixos() -> (r: Vec<u8>)
    ensures
        r@ == cmd_nixos(),
{
    let mut v: Vec<u8> = Vec::new();
    v.push(110);
    v.push(105);
    v.push(120);
    v.push(111);
    v.push(115);
    v.push(45);
    v.push(114);
    v.push(101);
    v.push(98);
    v.push(117);
    v.push(105);
    v.push(108);
    v.push(100);
    v.push(32);
    v.push(115);
    v.push(119);
    v.push(105);
    v.push(116);
    v.push(99);
    v.push(104);
    v.push(32);
    v.push(45);
    v.push(45);
    v.push(102);
    v.push(108);
    v.push(97);
    v.push(107);
    v.push(101);
    v.push(32);
    v.push(46);
    v.push(35);
    v.push(60);
    v.push(110);
    v.push(97);
    v.push(109);
    v.push(101);
    v.push(62);
    proof {
        assert(v@ =~= cmd_nixos());
    }
    v
}

/// The bytes of `#<name>`.
pub open spec fn attr_suffix() -> Seq<u8> {
    seq![35u8, 60u8, 110u8, 97u8, 109u8, 101u8, 62u8]
}

fn make_attr_suffix() -> (r: Vec<u8>)
    ensures
        r@ == attr_suffix(),
{
    let mut v: Vec<u8> = Vec::new();
    v.push(35);
    v.push(60);
    v.push(110);
    v.push(97);
    v.push(109);
    v.push(101);
    v.push(62);
    proof {
        assert(v@ =~= attr_suffix());
    }
    v
}

/// The bytes of `N/A`.
pub open spec fn missing_description() -> Seq<u8> {
    seq![78u8, 47u8, 65u8]
}

fn make_missing_description() -> (r: Vec<u8>)
    ensures
        r@ == missing_description(),
{
    let mut v: Vec<u8> = Vec::new();
    v.push(78);
    v.push(47);
    v.push(65);
    proof {
        assert(v@ =~= missing_description());
    }
    v
}


} // verus!
