# platform

A terminal manager for Minecraft servers: it downloads server software, starts servers
with the right Java options, and shares folder groups between servers through links or
copies.

`src/` is the verified library: paths and their components, the configuration and its
directories, the software catalogue and how jars are chosen and named from the Mojang,
PaperMC, Fabric, NeoForge and Forge metadata, the Java arguments of a server, the cleaning
and classification of its console output, the decisions taken while syncing folder groups,
and the parsing done by the menus. `app/` is the terminal program around it: prompts,
network requests, files and processes. `tests/` runs the library on concrete values.

Paths are modelled as Unix paths held as Unicode text: `/` is the only separator, and
`join`, `path_components` and the other path functions say what `std::path` computes on
Unix. On Windows (`\` separators, drive prefixes) and for names that are not valid Unicode
the verified statements do not apply.
