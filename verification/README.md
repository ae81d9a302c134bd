# Quartermaster

A small package manager whose interesting half is a dependency resolver: a
PubGrub version solver that either pins every transitive dependency to one
version or explains, in numbered English sentences, why no such set exists.

The library is written in Verus. Every function in `src/` carries a contract
that Verus proves; the command line in `app/` only reads files, prints and
writes.

## Layout

| Module | What it holds |
|--------|---------------|
| `text` | character-level helpers (`trim`, `split`, `lines`, decimal digits) with their exact specifications |
| `order` | three-way comparison and the lexicographic order of strings |
| `version` | semantic versions, their order, parsing and text; the text of a version parses back to it |
| `range` | version sets as sorted, disjoint intervals between cuts; union, intersection and complement are exact set operations |
| `constraint` | the constraint grammar (`^1.2`, `~1.2`, `>=1.0, <2.0`, `1 \|\| 2`, `*`) parsed into ranges |
| `term`, `incompat` | the atoms the solver reasons with, over package states (a version, or absent) |
| `solver` | the PubGrub search: unit propagation, decisions, conflict resolution and backjumping |
| `facts` | what the search keeps true and what its answers mean: a store made of facts and their resolvents, solutions, and the selection policy's picks |
| `explain` | a failed resolution rendered as a numbered proof |
| `registry`, `manifest`, `lock`, `install`, `tree`, `cli` | the package-manager plumbing: text formats, the lockfile, the installed manifest, the dependency tree, command-line arguments |

Laws the library states and proves include: the range algebra is exact;
`*` holds every version; the version order is a total preorder with
prereleases below their release; the selection step (`best_version`) picks
the highest allowed stable release; each single resolution, conflict and unit
propagation step is sound; a solution is a solution: every dependency of the
project and every dependency the provider lists for a pinned version is
pinned within its range, each pin the selection policy's pick among the
versions the provider lists, and an empty project resolves to nothing; a
conflict is answered with a terminal incompatibility derived by resolution
from the project's dependencies and the provider's listings, which on
well-posed inputs proves that no solution exists; the search stops with an
error only once its step bounds are spent; a registry reads back what was
published; a lockfile and a version's text read back what was written.
